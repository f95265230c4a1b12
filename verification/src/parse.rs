//! The tokenizer: a single forward pass over a text buffer that produces an
//! ordered sequence of tokens covering the input.
//!
//! The executable `parse` function is verified against `spec_parse`, a
//! recursive mathematical description of the same scan over the buffer's
//! character sequence.

use vstd::prelude::*;

verus! {

/// How one structural line terminator was written in the source.
#[derive(Debug, Clone, Copy, PartialEq, Eq, Structural)]
pub enum Newline {
    /// The character `\n` not immediately preceded by `\r`.
    Unix,
    /// The character sequence `\r\n`.
    Windows,
    /// The character `\r` not immediately followed by `\n`.
    Mac,
}

/// The content of a block comment: a sequence of verbatim text spans
/// (`Ok`) alternating with embedded newline markers (`Err`). The scan
/// only ever produces a single text span holding the raw comment body,
/// embedded line breaks included.
#[derive(Debug, PartialEq, Eq)]
pub struct MultilineText<'a> {
    t: Vec<Result<&'a str, Newline>>,
}

impl<'a> View for MultilineText<'a> {
    type V = Seq<Result<Seq<char>, Newline>>;

    closed spec fn view(&self) -> Seq<Result<Seq<char>, Newline>> {
        Seq::new(
            self.t@.len(),
            |k: int|
                match self.t@[k] {
                    Ok(s) => Ok(s@),
                    Err(nl) => Err(nl),
                },
        )
    }
}

impl<'a> MultilineText<'a> {
    /// Comment content holding exactly one verbatim text span.
    pub fn new(text: &'a str) -> (r: Self)
        ensures
            r@ =~= seq![Ok::<Seq<char>, Newline>(text@)],
    {
        Self { t: vec![Ok(text)] }
    }

    /// The alternating text spans and newline markers of the content.
    pub fn entries(&self) -> (r: &Vec<Result<&'a str, Newline>>)
        ensures
            r@.len() == self@.len(),
            forall|k: int|
                0 <= k < r@.len() ==> self@[k] == (match r@[k] {
                    Ok(s) => Ok::<Seq<char>, Newline>(s@),
                    Err(nl) => Err(nl),
                }),
    {
        &self.t
    }
}

impl<'a> Default for MultilineText<'a> {
    fn default() -> (r: Self)
        ensures
            r@ =~= Seq::<Result<Seq<char>, Newline>>::empty(),
    {
        Self { t: Vec::new() }
    }
}

/// One classified unit of the lexical output. Spans borrow from the
/// source buffer; nothing is copied.
#[derive(Debug, PartialEq, Eq)]
pub enum TokenKind<'a> {
    /// A non-empty, maximal run of characters not otherwise classified.
    Text(&'a str),
    /// One structural line terminator.
    Newline(Newline),
    /// `level` is the count of leading `#` characters minus one; `text` is
    /// the span after the mandatory separating space, up to (not including)
    /// the next line terminator or end of input.
    Heading { level: usize, text: &'a str },
    /// Everything between an opening `<!--` and its terminator.
    Comment(MultilineText<'a>),
}

/// Mathematical model of one token, over character sequences.
pub enum Token {
    Text(Seq<char>),
    Newline(Newline),
    Heading { level: nat, text: Seq<char> },
    Comment(Seq<Result<Seq<char>, Newline>>),
}

impl<'a> View for TokenKind<'a> {
    type V = Token;

    open spec fn view(&self) -> Token {
        match self {
            TokenKind::Text(s) => Token::Text(s@),
            TokenKind::Newline(nl) => Token::Newline(*nl),
            TokenKind::Heading { level, text } => Token::Heading {
                level: *level as nat,
                text: text@,
            },
            TokenKind::Comment(m) => Token::Comment(m@),
        }
    }
}

/// The models of a sequence of produced tokens.
pub open spec fn views_of<'a>(toks: Seq<TokenKind<'a>>) -> Seq<Token> {
    toks.map_values(|t: TokenKind<'a>| t@)
}

/// The first position at or after `j` whose character is not `#`
/// (or the end of the input).
pub open spec fn hash_run_end(s: Seq<char>, j: int) -> int
    decreases s.len() - j,
{
    if j < 0 || j >= s.len() || s[j] != '#' {
        j
    } else {
        hash_run_end(s, j + 1)
    }
}

/// The first position at or after `j` holding a line-terminator character
/// (or the end of the input).
pub open spec fn line_end(s: Seq<char>, j: int) -> int
    decreases s.len() - j,
{
    if j < 0 || j >= s.len() || s[j] == '\n' || s[j] == '\r' {
        j
    } else {
        line_end(s, j + 1)
    }
}

/// The first position at or after `j` holding `>` (or the end of the input).
pub open spec fn gt_end(s: Seq<char>, j: int) -> int
    decreases s.len() - j,
{
    if j < 0 || j >= s.len() || s[j] == '>' {
        j
    } else {
        gt_end(s, j + 1)
    }
}

/// The literal four-character sequence `<!--` stands at position `i`.
pub open spec fn comment_opens(s: Seq<char>, i: int) -> bool {
    &&& i + 3 < s.len()
    &&& s[i] == '<'
    &&& s[i + 1] == '!'
    &&& s[i + 2] == '-'
    &&& s[i + 3] == '-'
}

/// At a `#` in position `i`, heading recognition commits exactly when the
/// character immediately after the run of hashes is a single space.
pub open spec fn heading_commits(s: Seq<char>, i: int) -> bool {
    let j = hash_run_end(s, i + 1);
    j < s.len() && s[j] == ' '
}

/// The content of a comment opened at `i`: every character strictly between
/// the opener and the first `>`, minus the two characters immediately
/// preceding that `>` (they mirror the closing `-->`).
pub open spec fn comment_content(s: Seq<char>, i: int) -> Seq<char> {
    let gt = gt_end(s, i + 4);
    if gt - 2 >= i + 4 {
        s.subrange(i + 4, gt - 2)
    } else {
        Seq::<char>::empty()
    }
}

/// The pending unclassified run `[ts, i)`, emitted as a text token when it
/// is non-empty.
pub open spec fn pending(s: Seq<char>, ts: int, i: int) -> Seq<Token> {
    if ts < i {
        seq![Token::Text(s.subrange(ts, i))]
    } else {
        Seq::<Token>::empty()
    }
}

/// The tokens produced by the scan from position `i` onward, where `ts` is
/// the start of the current unclassified run and `nl_ok` says whether the
/// last emitted structural token was a newline (or nothing was emitted yet),
/// which is what makes a `#` at the very start of its run eligible as a
/// heading.
pub open spec fn scan(s: Seq<char>, i: int, ts: int, nl_ok: bool) -> Seq<Token>
    decreases s.len() - i,
    via scan_decreases
{
    if !(0 <= ts && ts <= i && i <= s.len()) {
        Seq::<Token>::empty()
    } else if i == s.len() {
        pending(s, ts, i)
    } else if s[i] == '\n' {
        pending(s, ts, i) + seq![Token::Newline(Newline::Unix)] + scan(s, i + 1, i + 1, true)
    } else if s[i] == '\r' {
        if i + 1 < s.len() && s[i + 1] == '\n' {
            pending(s, ts, i) + seq![Token::Newline(Newline::Windows)] + scan(
                s,
                i + 2,
                i + 2,
                true,
            )
        } else {
            pending(s, ts, i) + seq![Token::Newline(Newline::Mac)] + scan(s, i + 1, i + 1, true)
        }
    } else if s[i] == '#' && nl_ok && ts == i && heading_commits(s, i) {
        let j = hash_run_end(s, i + 1);
        let k = line_end(s, j + 1);
        seq![Token::Heading { level: (j - (i + 1)) as nat, text: s.subrange(j + 1, k) }] + scan(
            s,
            k,
            k,
            false,
        )
    } else if s[i] == '<' && comment_opens(s, i) {
        let gt = gt_end(s, i + 4);
        if gt < s.len() {
            pending(s, ts, i) + seq![
                Token::Comment(seq![Ok::<Seq<char>, Newline>(comment_content(s, i))]),
            ] + scan(s, gt + 1, gt + 1, false)
        } else {
            // The comment never terminates: the whole remainder of the
            // input, opener included, degrades to one raw text run.
            seq![Token::Text(s.subrange(ts, s.len() as int))]
        }
    } else {
        scan(s, i + 1, ts, nl_ok)
    }
}

#[via_fn]
proof fn scan_decreases(s: Seq<char>, i: int, ts: int, nl_ok: bool) {
    if 0 <= ts && ts <= i && i < s.len() {
        lemma_hash_run_end_props(s, i + 1);
        let j: int = hash_run_end(s, i + 1);
        if j + 1 <= s.len() {
            lemma_line_end_props(s, j + 1);
        }
        if i + 4 <= s.len() {
            lemma_gt_end_props(s, i + 4);
        }
    }
}

/// The whole tokenization of a buffer: the scan from the start, with the
/// unclassified run empty and a heading allowed at the first character.
pub open spec fn spec_parse(s: Seq<char>) -> Seq<Token> {
    scan(s, 0, 0, true)
}

pub proof fn lemma_hash_run_end_props(s: Seq<char>, j: int)
    requires
        0 <= j <= s.len(),
    ensures
        j <= hash_run_end(s, j) <= s.len(),
        forall|m: int| j <= m < hash_run_end(s, j) ==> s[m] == '#',
        hash_run_end(s, j) < s.len() ==> s[hash_run_end(s, j)] != '#',
    decreases s.len() - j,
{
    if j < s.len() && s[j] == '#' {
        lemma_hash_run_end_props(s, j + 1);
    }
}

pub proof fn lemma_line_end_props(s: Seq<char>, j: int)
    requires
        0 <= j <= s.len(),
    ensures
        j <= line_end(s, j) <= s.len(),
        forall|m: int| j <= m < line_end(s, j) ==> s[m] != '\n' && s[m] != '\r',
        line_end(s, j) < s.len() ==> s[line_end(s, j)] == '\n' || s[line_end(s, j)] == '\r',
    decreases s.len() - j,
{
    if j < s.len() && s[j] != '\n' && s[j] != '\r' {
        lemma_line_end_props(s, j + 1);
    }
}

pub proof fn lemma_gt_end_props(s: Seq<char>, j: int)
    requires
        0 <= j <= s.len(),
    ensures
        j <= gt_end(s, j) <= s.len(),
        forall|m: int| j <= m < gt_end(s, j) ==> s[m] != '>',
        gt_end(s, j) < s.len() ==> s[gt_end(s, j)] == '>',
    decreases s.len() - j,
{
    if j < s.len() && s[j] != '>' {
        lemma_gt_end_props(s, j + 1);
    }
}

pub proof fn lemma_hash_run_end_is(s: Seq<char>, j: int, k: int)
    requires
        0 <= j <= k <= s.len(),
        forall|m: int| j <= m < k ==> s[m] == '#',
        k < s.len() ==> s[k] != '#',
    ensures
        hash_run_end(s, j) == k,
    decreases k - j,
{
    if j < k {
        lemma_hash_run_end_is(s, j + 1, k);
    }
}

pub proof fn lemma_line_end_is(s: Seq<char>, j: int, k: int)
    requires
        0 <= j <= k <= s.len(),
        forall|m: int| j <= m < k ==> s[m] != '\n' && s[m] != '\r',
        k < s.len() ==> s[k] == '\n' || s[k] == '\r',
    ensures
        line_end(s, j) == k,
    decreases k - j,
{
    if j < k {
        lemma_line_end_is(s, j + 1, k);
    }
}

pub proof fn lemma_gt_end_is(s: Seq<char>, j: int, k: int)
    requires
        0 <= j <= k <= s.len(),
        forall|m: int| j <= m < k ==> s[m] != '>',
        k < s.len() ==> s[k] == '>',
    ensures
        gt_end(s, j) == k,
    decreases k - j,
{
    if j < k {
        lemma_gt_end_is(s, j + 1, k);
    }
}

/// Scan the run of consecutive `#` characters starting at `from`.
fn scan_hash_run(source: &str, from: usize, n: usize) -> (j: usize)
    requires
        n == source@.len(),
        from <= n,
    ensures
        from <= j <= n,
        j as int == hash_run_end(source@, from as int),
{
    let mut j: usize = from;
    while j < n && source.get_char(j) == '#'
        invariant
            n == source@.len(),
            from <= j <= n,
            forall|m: int| from <= m < j ==> source@[m] == '#',
        decreases n - j,
    {
        j = j + 1;
    }
    proof {
        lemma_hash_run_end_is(source@, from as int, j as int);
    }
    j
}

/// Scan up to (not including) the next line terminator, from `from`.
fn scan_line_end(source: &str, from: usize, n: usize) -> (k: usize)
    requires
        n == source@.len(),
        from <= n,
    ensures
        from <= k <= n,
        k as int == line_end(source@, from as int),
{
    let mut k: usize = from;
    while k < n && source.get_char(k) != '\n' && source.get_char(k) != '\r'
        invariant
            n == source@.len(),
            from <= k <= n,
            forall|m: int| from <= m < k ==> source@[m] != '\n' && source@[m] != '\r',
        decreases n - k,
    {
        k = k + 1;
    }
    proof {
        lemma_line_end_is(source@, from as int, k as int);
    }
    k
}

/// Scan up to the next `>`, from `from`.
fn scan_gt(source: &str, from: usize, n: usize) -> (g: usize)
    requires
        n == source@.len(),
        from <= n,
    ensures
        from <= g <= n,
        g as int == gt_end(source@, from as int),
{
    let mut g: usize = from;
    while g < n && source.get_char(g) != '>'
        invariant
            n == source@.len(),
            from <= g <= n,
            forall|m: int| from <= m < g ==> source@[m] != '>',
        decreases n - g,
    {
        g = g + 1;
    }
    proof {
        lemma_gt_end_is(source@, from as int, g as int);
    }
    g
}

/// Tokenize a whole buffer in a single forward pass.
///
/// The result is exactly the token sequence that the mathematical scan
/// `spec_parse` describes: text runs, line terminators with their
/// convention, headings recognized only at the start of a line, and block
/// comments. The function performs no input or output and never fails; an
/// unterminated comment opener degrades to one raw text run covering the
/// rest of the buffer.
pub fn parse<'a>(source: &'a str) -> (tokens: Vec<TokenKind<'a>>)
    ensures
        views_of(tokens@) == spec_parse(source@),
{
    let n: usize = source.unicode_len();
    let mut tokens: Vec<TokenKind<'a>> = Vec::new();
    let mut i: usize = 0;
    let mut ts: usize = 0;
    let mut nl_ok: bool = true;
    while i < n
        invariant
            n == source@.len(),
            ts <= i <= n,
            spec_parse(source@) == views_of(tokens@) + scan(
                source@,
                i as int,
                ts as int,
                nl_ok,
            ),
        decreases n - i,
    {
        let ghost s = source@;
        let ghost i0: int = i as int;
        let ghost ts0: int = ts as int;
        let ghost nl0: bool = nl_ok;
        let ghost toks0 = tokens@;
        let c = source.get_char(i);
        if c == '\n' {
            if i > ts {
                tokens.push(TokenKind::Text(source.substring_char(ts, i)));
            }
            tokens.push(TokenKind::Newline(Newline::Unix));
            i = i + 1;
            ts = i;
            nl_ok = true;
            proof {
                assert(views_of(tokens@) =~= views_of(toks0) + pending(s, ts0, i0) + seq![
                    Token::Newline(Newline::Unix),
                ]);
                assert(spec_parse(s) =~= views_of(tokens@) + scan(s, i as int, ts as int, nl_ok));
            }
        } else if c == '\r' {
            if i > ts {
                tokens.push(TokenKind::Text(source.substring_char(ts, i)));
            }
            if n - i > 1 && source.get_char(i + 1) == '\n' {
                tokens.push(TokenKind::Newline(Newline::Windows));
                i = i + 2;
            } else {
                tokens.push(TokenKind::Newline(Newline::Mac));
                i = i + 1;
            }
            ts = i;
            nl_ok = true;
            proof {
                if i0 + 1 < s.len() && s[i0 + 1] == '\n' {
                    assert(views_of(tokens@) =~= views_of(toks0) + pending(s, ts0, i0) + seq![
                        Token::Newline(Newline::Windows),
                    ]);
                } else {
                    assert(views_of(tokens@) =~= views_of(toks0) + pending(s, ts0, i0) + seq![
                        Token::Newline(Newline::Mac),
                    ]);
                }
                assert(spec_parse(s) =~= views_of(tokens@) + scan(s, i as int, ts as int, nl_ok));
            }
        } else if c == '#' && nl_ok && ts == i {
            let j = scan_hash_run(source, i + 1, n);
            if j < n && source.get_char(j) == ' ' {
                let k = scan_line_end(source, j + 1, n);
                let level: usize = j - i - 1;
                let text = source.substring_char(j + 1, k);
                tokens.push(TokenKind::Heading { level, text });
                i = k;
                ts = k;
                nl_ok = false;
                proof {
                    assert(heading_commits(s, i0));
                    assert(views_of(tokens@) =~= views_of(toks0) + seq![
                        Token::Heading {
                            level: (j - (i0 + 1)) as nat,
                            text: s.subrange(j as int + 1, k as int),
                        },
                    ]);
                    assert(spec_parse(s) =~= views_of(tokens@) + scan(
                        s,
                        i as int,
                        ts as int,
                        nl_ok,
                    ));
                }
            } else {
                i = i + 1;
                proof {
                    assert(!heading_commits(s, i0));
                    assert(scan(s, i0, ts0, nl0) == scan(s, i as int, ts as int, nl_ok));
                }
            }
        } else if c == '<' {
            if n - i > 3 && source.get_char(i + 1) == '!' && source.get_char(i + 2) == '-'
                && source.get_char(i + 3) == '-' {
                let gt = scan_gt(source, i + 4, n);
                if gt < n {
                    let ce: usize = if gt - i >= 6 {
                        gt - 2
                    } else {
                        i + 4
                    };
                    let content = source.substring_char(i + 4, ce);
                    if i > ts {
                        tokens.push(TokenKind::Text(source.substring_char(ts, i)));
                    }
                    tokens.push(TokenKind::Comment(MultilineText::new(content)));
                    i = gt + 1;
                    ts = i;
                    nl_ok = false;
                    proof {
                        assert(comment_opens(s, i0));
                        assert(content@ =~= comment_content(s, i0));
                        assert(views_of(tokens@) =~= views_of(toks0) + pending(s, ts0, i0) + seq![
                            Token::Comment(seq![Ok::<Seq<char>, Newline>(comment_content(s, i0))]),
                        ]);
                        assert(spec_parse(s) =~= views_of(tokens@) + scan(
                            s,
                            i as int,
                            ts as int,
                            nl_ok,
                        ));
                    }
                } else {
                    let rest = source.substring_char(ts, n);
                    tokens.push(TokenKind::Text(rest));
                    i = n;
                    ts = n;
                    proof {
                        assert(comment_opens(s, i0));
                        assert(scan(s, i0, ts0, nl0) =~= seq![
                            Token::Text(s.subrange(ts0, s.len() as int)),
                        ]);
                        assert(views_of(tokens@) =~= views_of(toks0) + scan(s, i0, ts0, nl0));
                        assert(spec_parse(s) =~= views_of(tokens@) + scan(
                            s,
                            i as int,
                            ts as int,
                            nl_ok,
                        ));
                    }
                }
            } else {
                i = i + 1;
                proof {
                    assert(!comment_opens(s, i0));
                    assert(scan(s, i0, ts0, nl0) == scan(s, i as int, ts as int, nl_ok));
                }
            }
        } else {
            i = i + 1;
            proof {
                assert(scan(s, i0, ts0, nl0) == scan(s, i as int, ts as int, nl_ok));
            }
        }
    }
    if ts < n {
        tokens.push(TokenKind::Text(source.substring_char(ts, n)));
    }
    proof {
        assert(views_of(tokens@) =~= spec_parse(source@));
    }
    tokens
}

} // verus!
