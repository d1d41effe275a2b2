//! The scanner proper: token definitions, the ordered literal table with
//! longest-match recognition, identifier scanning, and the `scan` driver that
//! produces one token per call.

use crate::text::byte_off;
use crate::text::byte_total;
use crate::text::char_width;
use crate::text::ident_cont;
use crate::text::ident_start;
use crate::text::is_ident_cont;
use crate::text::is_ident_start;
use crate::text::char_is_whitespace;
use crate::text::lemma_byte_off_mono;
use crate::text::lemma_byte_off_step;
use crate::text::lemma_byte_off_zero;
use crate::text::str_byte_len;
use crate::text::unicode_whitespace;
use vstd::prelude::*;
use vstd::string::StrSliceExecFns;
use vstd::string::StringExecFns;

verus! {

/// The exact characters consumed for one identifier.
pub struct Name {
    pub text: String,
}

impl View for Name {
    type V = Seq<char>;

    open spec fn view(&self) -> Seq<char> {
        self.text@
    }
}

/// A classified token. Only `Ident` carries data: the identifier's text.
pub enum Token {
    Ident(Name),
    Newline,
    Arrow,
    Quote,
    DQuote,
    Lparen,
    Rparen,
    Eof,
    Error,
}

/// The mathematical shape of a token: as `Token`, with the identifier text as
/// a character sequence.
pub ghost enum SpecToken {
    Ident(Seq<char>),
    Newline,
    Arrow,
    Quote,
    DQuote,
    Lparen,
    Rparen,
    Eof,
    Error,
}

impl View for Token {
    type V = SpecToken;

    open spec fn view(&self) -> SpecToken {
        match self {
            Token::Ident(n) => SpecToken::Ident(n@),
            Token::Newline => SpecToken::Newline,
            Token::Arrow => SpecToken::Arrow,
            Token::Quote => SpecToken::Quote,
            Token::DQuote => SpecToken::DQuote,
            Token::Lparen => SpecToken::Lparen,
            Token::Rparen => SpecToken::Rparen,
            Token::Eof => SpecToken::Eof,
            Token::Error => SpecToken::Error,
        }
    }
}

/// A token together with the byte offset at which it starts.
pub struct TokenAndPos {
    pub tok: Token,
    pub pos: usize,
}

/// One entry of the literal table: the characters of the literal and the
/// token it stands for.
pub struct TableEntry {
    pub lit: Vec<char>,
    pub tok: Token,
}

/// The mathematical shape of one table entry.
pub open spec fn entry_view(e: TableEntry) -> (Seq<char>, SpecToken) {
    (e.lit@, e.tok@)
}

/// The mathematical shape of a literal table.
pub open spec fn table_view(t: Seq<TableEntry>) -> Seq<(Seq<char>, SpecToken)> {
    t.map_values(|e: TableEntry| entry_view(e))
}

/// The literal of entry `lit` matches the input `s` at position `i`: the
/// characters of `lit` stand, in order, at `i` and onward.
pub open spec fn lit_matches_at(s: Seq<char>, i: int, lit: Seq<char>) -> bool {
    i + lit.len() <= s.len() && s.subrange(i, i + lit.len()) == lit
}

/// Index of the first table entry whose literal matches the input at `i`
/// under a front-to-back linear search, or `None` when no entry matches.
pub open spec fn first_match(
    table: Seq<(Seq<char>, SpecToken)>,
    s: Seq<char>,
    i: int,
) -> Option<int>
    decreases table.len(),
{
    if table.len() == 0 {
        None
    } else if lit_matches_at(s, i, table[0].0) {
        Some(0)
    } else {
        match first_match(table.drop_first(), s, i) {
            Some(k) => Some(k + 1),
            None => None,
        }
    }
}

/// The default literal table. Longer literals stand before every literal
/// that is a prefix of them: the front-to-back search stops at the first
/// full match, so this order is what makes the longest match win.
pub open spec fn default_table() -> Seq<(Seq<char>, SpecToken)> {
    seq![
        (seq!['-', '>'], SpecToken::Arrow),
        (seq!['"'], SpecToken::DQuote),
        (seq!['\n'], SpecToken::Newline),
        (seq!['\''], SpecToken::Quote),
        (seq!['('], SpecToken::Lparen),
        (seq![')'], SpecToken::Rparen),
    ]
}

/// Builds the default literal table.
pub fn token_table() -> (t: Vec<TableEntry>)
    ensures
        table_view(t@) == default_table(),
{
    let mut t: Vec<TableEntry> = Vec::new();
    t.push(TableEntry { lit: vec!['-', '>'], tok: Token::Arrow });
    t.push(TableEntry { lit: vec!['"'], tok: Token::DQuote });
    t.push(TableEntry { lit: vec!['\n'], tok: Token::Newline });
    t.push(TableEntry { lit: vec!['\''], tok: Token::Quote });
    t.push(TableEntry { lit: vec!['('], tok: Token::Lparen });
    t.push(TableEntry { lit: vec![')'], tok: Token::Rparen });
    proof {
        assert(t@[0].lit@ =~= seq!['-', '>']);
        assert(t@[1].lit@ =~= seq!['"']);
        assert(t@[2].lit@ =~= seq!['\n']);
        assert(t@[3].lit@ =~= seq!['\'']);
        assert(t@[4].lit@ =~= seq!['(']);
        assert(t@[5].lit@ =~= seq![')']);
        assert(table_view(t@) =~~= default_table());
    }
    t
}

/// Position of the first character at or after `i` that is not whitespace,
/// or the end of the input when only whitespace remains.
pub open spec fn skip_ws(s: Seq<char>, i: int) -> int
    recommends
        0 <= i <= s.len(),
    decreases s.len() - i,
{
    if 0 <= i < s.len() && unicode_whitespace(s[i]) {
        skip_ws(s, i + 1)
    } else {
        i
    }
}

/// Position of the first character at or after `i` that cannot continue an
/// identifier, or the end of the input.
pub open spec fn ident_end(s: Seq<char>, i: int) -> int
    recommends
        0 <= i <= s.len(),
    decreases s.len() - i,
{
    if 0 <= i < s.len() && ident_cont(s[i]) {
        ident_end(s, i + 1)
    } else {
        i
    }
}

/// The byte offsets of the newline characters among the first `k` characters
/// of the input, in the order in which they stand there.
pub open spec fn newlines_in_prefix(s: Seq<char>, k: int) -> Seq<int>
    recommends
        0 <= k <= s.len(),
    decreases k,
{
    if k <= 0 {
        Seq::empty()
    } else if s[k - 1] == '\n' {
        newlines_in_prefix(s, k - 1).push(byte_off(s, k - 1) as int)
    } else {
        newlines_in_prefix(s, k - 1)
    }
}

/// A sequence of recorded offsets, read as mathematical integers.
pub open spec fn offsets_view(v: Seq<usize>) -> Seq<int> {
    v.map_values(|x: usize| x as int)
}

/// How far the cursor has looked when it stands at position `i`: a newline is
/// recorded the moment it becomes the current character, so position `i`
/// itself has been seen, and nothing past it.
pub open spec fn seen_prefix(s: Seq<char>, i: int) -> int {
    if i + 1 <= s.len() {
        i + 1
    } else {
        s.len() as int
    }
}

/// The outcome of one `scan` call: the token, the byte offset it is reported
/// at, and the cursor position, in characters, after the call.
pub ghost struct ScanStep {
    pub tok: SpecToken,
    pub pos: int,
    pub next: int,
}

/// What one `scan` call does from cursor position `i`: skip whitespace, then
/// report end of input, reject a quote or slash (reserved for future string
/// and comment support), scan an identifier, or try the literal table,
/// advancing by one character when nothing matches. Every token is reported
/// at its start offset; end of input is reported at the input's byte length.
pub open spec fn scan_spec(s: Seq<char>, i: int) -> ScanStep
    recommends
        0 <= i <= s.len(),
{
    let j = skip_ws(s, i);
    if j >= s.len() {
        ScanStep { tok: SpecToken::Eof, pos: byte_off(s, j) as int, next: j }
    } else if s[j] == '"' || s[j] == '/' {
        ScanStep { tok: SpecToken::Error, pos: byte_off(s, j) as int, next: j + 1 }
    } else if ident_start(s[j]) {
        ScanStep {
            tok: SpecToken::Ident(s.subrange(j, ident_end(s, j))),
            pos: byte_off(s, j) as int,
            next: ident_end(s, j),
        }
    } else {
        match first_match(default_table(), s, j) {
            Some(k) => ScanStep {
                tok: default_table()[k].1,
                pos: byte_off(s, j) as int,
                next: j + default_table()[k].0.len(),
            },
            None => ScanStep { tok: SpecToken::Error, pos: byte_off(s, j) as int, next: j + 1 },
        }
    }
}

/// Skipping whitespace never moves the cursor backward nor past the end.
pub proof fn lemma_skip_ws_bounds(s: Seq<char>, i: int)
    requires
        0 <= i <= s.len(),
    ensures
        i <= skip_ws(s, i) <= s.len(),
    decreases s.len() - i,
{
    if i < s.len() && unicode_whitespace(s[i]) {
        lemma_skip_ws_bounds(s, i + 1);
    }
}

/// Identifier scanning never moves the cursor backward nor past the end.
pub proof fn lemma_ident_end_bounds(s: Seq<char>, i: int)
    requires
        0 <= i <= s.len(),
    ensures
        i <= ident_end(s, i) <= s.len(),
    decreases s.len() - i,
{
    if i < s.len() && ident_cont(s[i]) {
        lemma_ident_end_bounds(s, i + 1);
    }
}

/// A front-to-back search that fails on every entry before `e` and succeeds
/// on `e` stops exactly at `e`.
pub proof fn lemma_first_match_found(
    table: Seq<(Seq<char>, SpecToken)>,
    s: Seq<char>,
    i: int,
    e: int,
)
    requires
        0 <= e < table.len(),
        lit_matches_at(s, i, table[e].0),
        forall|k: int| 0 <= k < e ==> !lit_matches_at(s, i, table[k].0),
    ensures
        first_match(table, s, i) == Some(e),
    decreases e,
{
    if e > 0 {
        assert(!lit_matches_at(s, i, table[0].0));
        assert(table.drop_first()[e - 1] == table[e]);
        assert(forall|k: int|
            0 <= k < e - 1 ==> table.drop_first()[k] == table[k + 1]);
        lemma_first_match_found(table.drop_first(), s, i, e - 1);
    }
}

/// A front-to-back search that fails on every entry finds nothing.
pub proof fn lemma_first_match_none(
    table: Seq<(Seq<char>, SpecToken)>,
    s: Seq<char>,
    i: int,
)
    requires
        forall|k: int| 0 <= k < table.len() ==> !lit_matches_at(s, i, table[k].0),
    ensures
        first_match(table, s, i) is None,
    decreases table.len(),
{
    if table.len() > 0 {
        assert(forall|k: int|
            0 <= k < table.len() - 1 ==> table.drop_first()[k] == table[k + 1]);
        lemma_first_match_none(table.drop_first(), s, i);
    }
}

/// A successful search names an entry whose literal matches, and it is the
/// first such entry.
pub proof fn lemma_first_match_some(
    table: Seq<(Seq<char>, SpecToken)>,
    s: Seq<char>,
    i: int,
)
    requires
        first_match(table, s, i) is Some,
    ensures
        0 <= first_match(table, s, i)->Some_0 < table.len(),
        lit_matches_at(s, i, table[first_match(table, s, i)->Some_0].0),
    decreases table.len(),
{
    if table.len() > 0 && !lit_matches_at(s, i, table[0].0) {
        lemma_first_match_some(table.drop_first(), s, i);
        assert(table.drop_first()[first_match(table.drop_first(), s, i)->Some_0]
            == table[first_match(table.drop_first(), s, i)->Some_0 + 1]);
    }
}

/// The scanner: a cursor over the input text, the recorded newline offsets,
/// and the literal table.
pub struct Scanner<'a> {
    src: &'a str,
    char_count: usize,
    idx: usize,
    pos: usize,
    line_offs: Vec<usize>,
    table: Vec<TableEntry>,
}

impl<'a> Scanner<'a> {
    /// The input text, as the sequence of its characters.
    pub closed spec fn input(self) -> Seq<char> {
        self.src@
    }

    /// The cursor: the position, in characters, of the current character,
    /// equal to the input length at end of input.
    pub closed spec fn cursor(self) -> int {
        self.idx as int
    }

    /// The recorded newline byte offsets.
    pub closed spec fn lines(self) -> Seq<int> {
        offsets_view(self.line_offs@)
    }

    /// Well-formedness: the cursor stays within the input, the cached byte
    /// offset agrees with the cursor, the recorded newline offsets are
    /// exactly those of the newlines seen so far, and the literal table is
    /// the default one.
    pub closed spec fn wf(self) -> bool {
        &&& self.char_count as int == self.input().len()
        &&& 0 <= self.cursor() <= self.input().len()
        &&& byte_total(self.input()) <= usize::MAX
        &&& self.pos as nat == byte_off(self.input(), self.cursor())
        &&& self.lines() == newlines_in_prefix(
            self.input(),
            seen_prefix(self.input(), self.cursor()),
        )
        &&& table_view(self.table@) == default_table()
    }

    /// Builds a scanner over the given text, with the cursor on its first
    /// character.
    pub fn from_string(src: &'a str) -> (sc: Scanner<'a>)
        ensures
            sc.wf(),
            sc.input() == src@,
            sc.cursor() == 0,
    {
        let char_count = src.unicode_len();
        let _byte_len = str_byte_len(src);
        let mut line_offs: Vec<usize> = Vec::new();
        if char_count > 0 {
            let c = src.get_char(0);
            if c == '\n' {
                line_offs.push(0);
            }
        }
        let table = token_table();
        let sc = Scanner { src, char_count, idx: 0, pos: 0, line_offs, table };
        proof {
            lemma_byte_off_zero(src@);
            assert(newlines_in_prefix(src@, 0) == Seq::<int>::empty());
            assert(sc.lines() =~= newlines_in_prefix(src@, seen_prefix(src@, 0)));
        }
        sc
    }

    /// The current character.
    fn current(&self) -> (c: char)
        requires
            self.wf(),
            self.cursor() < self.input().len(),
        ensures
            c == self.input()[self.cursor()],
    {
        self.src.get_char(self.idx)
    }

    /// True exactly when the cursor stands past the last character.
    fn is_end(&self) -> (r: bool)
        requires
            self.wf(),
        ensures
            r == (self.cursor() == self.input().len()),
    {
        self.idx == self.char_count
    }

    /// The character `n` positions ahead of the current one, without moving
    /// the cursor, or `None` when that position is past the end.
    fn lookn(&self, n: usize) -> (r: Option<char>)
        requires
            self.wf(),
        ensures
            r == (if self.cursor() + n < self.input().len() {
                Some(self.input()[self.cursor() + n])
            } else {
                None::<char>
            }),
    {
        if n < self.char_count && self.idx < self.char_count - n {
            Some(self.src.get_char(self.idx + n))
        } else {
            None
        }
    }

    /// Moves the cursor to the next character; when the newly current
    /// character is a newline, its byte offset is recorded.
    fn bump(&mut self)
        requires
            old(self).wf(),
            old(self).cursor() < old(self).input().len(),
        ensures
            final(self).wf(),
            final(self).input() == old(self).input(),
            final(self).cursor() == old(self).cursor() + 1,
    {
        let ghost s = self.input();
        let ghost i = self.cursor();
        let c = self.current();
        let w = char_width(c);
        proof {
            lemma_byte_off_step(s, i);
            lemma_byte_off_mono(s, i + 1, s.len() as int);
        }
        self.pos = self.pos + w;
        self.idx = self.idx + 1;
        if self.idx < self.char_count {
            let c2 = self.src.get_char(self.idx);
            if c2 == '\n' {
                self.line_offs.push(self.pos);
            }
        }
        proof {
            assert(self.lines() =~= newlines_in_prefix(s, seen_prefix(s, i + 1)));
        }
    }

    /// Advances the cursor while the current character is whitespace.
    fn skip_whitespace(&mut self)
        requires
            old(self).wf(),
        ensures
            final(self).wf(),
            final(self).input() == old(self).input(),
            final(self).cursor() == skip_ws(old(self).input(), old(self).cursor()),
    {
        let ghost s = self.input();
        let ghost i0 = self.cursor();
        while !self.is_end() && char_is_whitespace(self.current())
            invariant
                self.wf(),
                self.input() == s,
                i0 <= self.cursor() <= s.len(),
                skip_ws(s, i0) == skip_ws(s, self.cursor()),
            decreases s.len() - self.cursor(),
        {
            self.bump();
        }
    }

    /// Consumes the run of identifier characters that starts at the current
    /// character and wraps it as an identifier token, reported at the run's
    /// start offset.
    fn scan_ident(&mut self) -> (r: TokenAndPos)
        requires
            old(self).wf(),
            old(self).cursor() < old(self).input().len(),
        ensures
            final(self).wf(),
            final(self).input() == old(self).input(),
            final(self).cursor() == ident_end(old(self).input(), old(self).cursor()),
            r.tok@ == SpecToken::Ident(
                old(self).input().subrange(
                    old(self).cursor(),
                    ident_end(old(self).input(), old(self).cursor()),
                ),
            ),
            r.pos as int == byte_off(old(self).input(), old(self).cursor()),
    {
        let ghost s = self.input();
        let ghost i0 = self.cursor();
        let start = self.idx;
        let p = self.pos;
        while !self.is_end() && is_ident_cont(self.current())
            invariant
                self.wf(),
                self.input() == s,
                i0 <= self.cursor() <= s.len(),
                ident_end(s, i0) == ident_end(s, self.cursor()),
                start as int == i0,
                p as nat == byte_off(s, i0),
            decreases s.len() - self.cursor(),
        {
            self.bump();
        }
        let text = String::from_str(self.src.substring_char(start, self.idx));
        TokenAndPos { tok: Token::Ident(Name { text }), pos: p }
    }

    /// Tries the literal table, front to back, against the remaining input
    /// without moving the cursor, and names the first entry whose literal
    /// matches in full.
    fn try_match(&self) -> (r: Option<usize>)
        requires
            self.wf(),
        ensures
            match r {
                Some(e) => {
                    &&& 0 <= e < default_table().len()
                    &&& first_match(default_table(), self.input(), self.cursor()) == Some(
                        e as int,
                    )
                    &&& lit_matches_at(self.input(), self.cursor(), default_table()[e as int].0)
                },
                None => first_match(default_table(), self.input(), self.cursor()) is None,
            },
    {
        let ghost s = self.input();
        let ghost i = self.cursor();
        let ghost dt = default_table();
        let mut e: usize = 0;
        while e < self.table.len()
            invariant
                self.wf(),
                s == self.input(),
                i == self.cursor(),
                dt == default_table(),
                e <= self.table@.len(),
                forall|k: int| 0 <= k < e ==> !lit_matches_at(s, i, dt[k].0),
            decreases self.table@.len() - e,
        {
            let lit = &self.table[e].lit;
            let mut k: usize = 0;
            let mut failed = false;
            while k < lit.len() && !failed
                invariant
                    self.wf(),
                    s == self.input(),
                    i == self.cursor(),
                    dt == default_table(),
                    e < self.table@.len(),
                    lit@ == dt[e as int].0,
                    k <= lit@.len(),
                    !failed ==> forall|m: int|
                        0 <= m < k ==> i + m < s.len() && s[i + m] == lit@[m],
                    failed ==> !lit_matches_at(s, i, lit@),
                decreases lit@.len() - k + (if failed { 0int } else { 1 }),
            {
                match self.lookn(k) {
                    Some(c) => {
                        if c == lit[k] {
                            k = k + 1;
                        } else {
                            proof {
                                if lit_matches_at(s, i, lit@) {
                                    assert(s.subrange(i, i + lit@.len() as int)[k as int]
                                        == s[i + k]);
                                }
                            }
                            failed = true;
                        }
                    },
                    None => {
                        failed = true;
                    },
                }
            }
            if !failed {
                proof {
                    assert(k == lit@.len());
                    if k > 0 {
                        assert(s[i + (k - 1)] == lit@[k - 1]);
                    }
                    assert(i + lit@.len() <= s.len());
                    assert(s.subrange(i, i + lit@.len() as int) =~= lit@);
                    lemma_first_match_found(dt, s, i, e as int);
                }
                return Some(e);
            }
            e = e + 1;
        }
        proof {
            lemma_first_match_none(dt, s, i);
        }
        None
    }

    /// Commits the cursor past the first matching table literal and returns
    /// that entry's token at the pre-match start offset; when no entry
    /// matches, returns an error token at the current offset and still
    /// advances by one character, so that a caller always makes progress.
    fn scan_symbol(&mut self) -> (r: TokenAndPos)
        requires
            old(self).wf(),
            old(self).cursor() < old(self).input().len(),
        ensures
            final(self).wf(),
            final(self).input() == old(self).input(),
            ({
                let s = old(self).input();
                let i = old(self).cursor();
                match first_match(default_table(), s, i) {
                    Some(k) => {
                        &&& r.tok@ == default_table()[k].1
                        &&& r.pos as int == byte_off(s, i)
                        &&& final(self).cursor() == i + default_table()[k].0.len()
                    },
                    None => {
                        &&& r.tok@ == SpecToken::Error
                        &&& r.pos as int == byte_off(s, i)
                        &&& final(self).cursor() == i + 1
                    },
                }
            }),
    {
        let ghost s = self.input();
        let ghost i = self.cursor();
        let p = self.pos;
        match self.try_match() {
            Some(e) => {
                let n = self.table[e].lit.len();
                proof {
                    assert(!(self.table@[e as int].tok@ is Ident));
                }
                let tok = unit_token_copy(&self.table[e].tok);
                let mut step: usize = 0;
                while step < n
                    invariant
                        self.wf(),
                        self.input() == s,
                        self.cursor() == i + step,
                        step <= n,
                        i + n <= s.len(),
                    decreases n - step,
                {
                    self.bump();
                    step = step + 1;
                }
                TokenAndPos { tok, pos: p }
            },
            None => {
                self.bump();
                TokenAndPos { tok: Token::Error, pos: p }
            },
        }
    }

    /// Produces exactly one token per call: skips whitespace, reports end of
    /// input idempotently, rejects a quote or slash, and otherwise scans an
    /// identifier or a table symbol. The token is reported at its start
    /// offset, and the cursor always advances while input remains.
    pub fn scan(&mut self) -> (r: TokenAndPos)
        requires
            old(self).wf(),
        ensures
            final(self).wf(),
            final(self).input() == old(self).input(),
            r.tok@ == scan_spec(old(self).input(), old(self).cursor()).tok,
            r.pos as int == scan_spec(old(self).input(), old(self).cursor()).pos,
            final(self).cursor() == scan_spec(old(self).input(), old(self).cursor()).next,
            old(self).cursor() <= final(self).cursor(),
    {
        proof {
            lemma_skip_ws_bounds(old(self).input(), old(self).cursor());
            lemma_ident_end_bounds(
                old(self).input(),
                skip_ws(old(self).input(), old(self).cursor()),
            );
        }
        self.skip_whitespace();
        if self.is_end() {
            return TokenAndPos { tok: Token::Eof, pos: self.pos };
        }
        let c = self.current();
        if c == '"' || c == '/' {
            let p = self.pos;
            self.bump();
            return TokenAndPos { tok: Token::Error, pos: p };
        }
        if is_ident_start(c) {
            self.scan_ident()
        } else {
            self.scan_symbol()
        }
    }

    /// The byte offsets of the newline characters seen so far, in strictly
    /// increasing order: one entry for each newline the cursor has reached,
    /// equal to that newline's byte offset.
    pub fn line_offsets(&self) -> (r: &Vec<usize>)
        requires
            self.wf(),
        ensures
            offsets_view(r@) == newlines_in_prefix(
                self.input(),
                seen_prefix(self.input(), self.cursor()),
            ),
            forall|m1: int, m2: int| 0 <= m1 < m2 < r@.len() ==> r@[m1] < r@[m2],
    {
        proof {
            lemma_newlines_increasing(
                self.input(),
                seen_prefix(self.input(), self.cursor()),
            );
            let v = self.line_offs@;
            assert forall|m1: int, m2: int| 0 <= m1 < m2 < v.len() implies v[m1] < v[m2] by {
                assert(offsets_view(v)[m1] == v[m1] as int);
                assert(offsets_view(v)[m2] == v[m2] as int);
            }
        }
        &self.line_offs
    }
}

/// The recorded newline offsets lie below the byte offset of the first
/// position not yet seen, and they are strictly increasing: each newline's
/// offset is appended exactly when the cursor reaches it, and byte offsets
/// grow with the position.
pub proof fn lemma_newlines_increasing(s: Seq<char>, k: int)
    requires
        0 <= k <= s.len(),
    ensures
        forall|m: int|
            0 <= m < newlines_in_prefix(s, k).len() ==> newlines_in_prefix(s, k)[m] < byte_off(
                s,
                k,
            ),
        forall|m1: int, m2: int|
            0 <= m1 < m2 < newlines_in_prefix(s, k).len() ==> newlines_in_prefix(s, k)[m1]
                < newlines_in_prefix(s, k)[m2],
    decreases k,
{
    if k > 0 {
        lemma_newlines_increasing(s, k - 1);
        lemma_byte_off_mono(s, k - 1, k);
        let prev = newlines_in_prefix(s, k - 1);
        let cur = newlines_in_prefix(s, k);
        if s[k - 1] == '\n' {
            assert(cur == prev.push(byte_off(s, k - 1) as int));
            assert forall|m: int| 0 <= m < cur.len() implies cur[m] < byte_off(s, k) by {
                if m < prev.len() {
                    assert(cur[m] == prev[m]);
                } else {
                    assert(cur[m] == byte_off(s, k - 1) as int);
                }
            }
            assert forall|m1: int, m2: int| 0 <= m1 < m2 < cur.len() implies cur[m1]
                < cur[m2] by {
                if m2 < prev.len() {
                    assert(cur[m1] == prev[m1]);
                    assert(cur[m2] == prev[m2]);
                } else {
                    assert(cur[m1] == prev[m1]);
                    assert(cur[m2] == byte_off(s, k - 1) as int);
                }
            }
        } else {
            assert(cur == prev);
        }
    }
}

/// A whitespace-only stretch is skipped whole.
proof fn lemma_skip_ws_all(s: Seq<char>, i: int)
    requires
        0 <= i <= s.len(),
        forall|k: int| 0 <= k < s.len() ==> unicode_whitespace(s[k]),
    ensures
        skip_ws(s, i) == s.len(),
    decreases s.len() - i,
{
    if i < s.len() {
        lemma_skip_ws_all(s, i + 1);
    }
}

/// Law: over whitespace-only input of any length, the first `scan` yields
/// `Eof` at the input's byte length, and so does every later one, at that
/// same offset, the cursor standing at the end throughout.
pub proof fn lemma_whitespace_only_scan(s: Seq<char>, i: int)
    requires
        0 <= i <= s.len(),
        forall|k: int| 0 <= k < s.len() ==> unicode_whitespace(s[k]),
    ensures
        scan_spec(s, i).tok == SpecToken::Eof,
        scan_spec(s, i).pos == byte_total(s) as int,
        scan_spec(s, i).next == s.len() as int,
{
    lemma_skip_ws_all(s, i);
}

/// Law: end of input is a terminal, idempotent state: from the end, every
/// `scan` yields `Eof` at the input's byte length and the cursor stays put.
pub proof fn lemma_end_is_terminal(s: Seq<char>)
    ensures
        scan_spec(s, s.len() as int).tok == SpecToken::Eof,
        scan_spec(s, s.len() as int).pos == byte_total(s) as int,
        scan_spec(s, s.len() as int).next == s.len() as int,
{
}

/// `a` is a proper prefix of `b`.
pub open spec fn is_proper_prefix(a: Seq<char>, b: Seq<char>) -> bool {
    a.len() < b.len() && a == b.subrange(0, a.len() as int)
}

/// Law (table ordering, longer literal first): when a literal `B` stands
/// before every literal that is a proper prefix of it, an input starting
/// with `B` — on which no entry before `B` matches — is matched as `B`, not
/// truncated to the prefix.
pub proof fn lemma_table_order_longer_first(
    table: Seq<(Seq<char>, SpecToken)>,
    s: Seq<char>,
    i: int,
    bi: int,
    ai: int,
)
    requires
        0 <= bi < ai < table.len(),
        is_proper_prefix(table[ai].0, table[bi].0),
        lit_matches_at(s, i, table[bi].0),
        forall|k: int| 0 <= k < bi ==> !lit_matches_at(s, i, table[k].0),
    ensures
        first_match(table, s, i) == Some(bi),
{
    lemma_first_match_found(table, s, i, bi);
}

/// Law (table ordering violated, shorter literal first): were a literal `A`
/// placed before a literal `B` that it is a proper prefix of, an input
/// starting with `B` — on which no entry before `A` matches — would be
/// truncated to a match on `A`.
pub proof fn lemma_table_order_shorter_first(
    table: Seq<(Seq<char>, SpecToken)>,
    s: Seq<char>,
    i: int,
    ai: int,
    bi: int,
)
    requires
        0 <= i,
        0 <= ai < bi < table.len(),
        is_proper_prefix(table[ai].0, table[bi].0),
        lit_matches_at(s, i, table[bi].0),
        forall|k: int| 0 <= k < ai ==> !lit_matches_at(s, i, table[k].0),
    ensures
        first_match(table, s, i) == Some(ai),
{
    let a = table[ai].0;
    let b = table[bi].0;
    assert forall|m: int| 0 <= m < a.len() implies s.subrange(i, i + a.len() as int)[m]
        == a[m] by {
        assert(s.subrange(i, i + b.len() as int)[m] == b[m]);
        assert(b.subrange(0, a.len() as int)[m] == b[m]);
    }
    assert(s.subrange(i, i + a.len() as int) =~= a);
    lemma_first_match_found(table, s, i, ai);
}

/// Law (forward progress): while input remains, every `scan` moves the
/// cursor strictly forward and never past the end, and reports its token no
/// earlier than the current byte offset; except at end of input, the
/// reported offset lies strictly below the byte offset the cursor moves to.
/// Repeated calls therefore yield strictly increasing offsets and reach
/// `Eof` within as many calls as there are characters left — in particular
/// on input that matches no table entry and starts no identifier, which
/// yields one error token per character.
pub proof fn lemma_scan_progress(s: Seq<char>, i: int)
    requires
        0 <= i < s.len(),
    ensures
        i < scan_spec(s, i).next <= s.len(),
        byte_off(s, i) <= scan_spec(s, i).pos,
        !(scan_spec(s, i).tok is Eof) ==> scan_spec(s, i).pos < byte_off(s, scan_spec(s, i).next),
{
    let j = skip_ws(s, i);
    lemma_skip_ws_bounds(s, i);
    lemma_byte_off_mono(s, i, j);
    if j >= s.len() {
    } else if s[j] == '"' || s[j] == '/' {
        lemma_byte_off_mono(s, j, j + 1);
    } else if ident_start(s[j]) {
        assert(ident_end(s, j) == ident_end(s, j + 1));
        lemma_ident_end_bounds(s, j + 1);
        lemma_byte_off_mono(s, j, ident_end(s, j));
    } else {
        match first_match(default_table(), s, j) {
            Some(k) => {
                lemma_first_match_some(default_table(), s, j);
                assert(default_table()[k].0.len() >= 1);
                lemma_byte_off_mono(s, j, j + default_table()[k].0.len() as int);
            },
            None => {
                lemma_byte_off_mono(s, j, j + 1);
            },
        }
    }
}

/// Rebuilds a token that carries no data; the table holds only such tokens.
fn unit_token_copy(t: &Token) -> (r: Token)
    requires
        !(t is Ident),
    ensures
        r == *t,
{
    match t {
        Token::Ident(_) => vstd::pervasive::unreached(),
        Token::Newline => Token::Newline,
        Token::Arrow => Token::Arrow,
        Token::Quote => Token::Quote,
        Token::DQuote => Token::DQuote,
        Token::Lparen => Token::Lparen,
        Token::Rparen => Token::Rparen,
        Token::Eof => Token::Eof,
        Token::Error => Token::Error,
    }
}

} // verus!
