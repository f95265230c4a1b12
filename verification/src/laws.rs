//! Laws of the tokenizer, proved against the mathematical scan model.
//!
//! The central ones: the emitted tokens partition the input (their source
//! text, concatenated in order, reproduces the buffer), no emitted text
//! token is empty, and a single emitted text run re-tokenizes to itself.

use vstd::prelude::*;
use crate::parse::{
    scan, spec_parse, pending, hash_run_end, line_end, gt_end, comment_opens, heading_commits,
    comment_content, Token, Newline, lemma_hash_run_end_props, lemma_line_end_props,
    lemma_gt_end_props,
};

verus! {

/// The source text of one line terminator.
pub open spec fn newline_text(nl: Newline) -> Seq<char> {
    match nl {
        Newline::Unix => seq!['\n'],
        Newline::Windows => seq!['\r', '\n'],
        Newline::Mac => seq!['\r'],
    }
}

/// The source text of a comment's content entries, concatenated in order.
pub open spec fn entries_text(es: Seq<Result<Seq<char>, Newline>>) -> Seq<char>
    decreases es.len(),
{
    if es.len() == 0 {
        Seq::<char>::empty()
    } else {
        (match es[0] {
            Ok(t) => t,
            Err(nl) => newline_text(nl),
        }) + entries_text(es.drop_first())
    }
}

/// A run of `n` hash characters.
pub open spec fn hashes(n: nat) -> Seq<char> {
    Seq::new(n, |m: int| '#')
}

/// The source text that one token stands for.
pub open spec fn token_text(t: Token) -> Seq<char> {
    match t {
        Token::Text(s) => s,
        Token::Newline(nl) => newline_text(nl),
        Token::Heading { level, text } => hashes(level + 1) + seq![' '] + text,
        Token::Comment(es) => seq!['<', '!', '-', '-'] + entries_text(es) + seq!['-', '-', '>'],
    }
}

/// The source text of a token sequence, concatenated in order.
pub open spec fn tokens_text(toks: Seq<Token>) -> Seq<char>
    decreases toks.len(),
{
    if toks.len() == 0 {
        Seq::<char>::empty()
    } else {
        token_text(toks[0]) + tokens_text(toks.drop_first())
    }
}

proof fn lemma_tokens_text_concat(a: Seq<Token>, b: Seq<Token>)
    ensures
        tokens_text(a + b) == tokens_text(a) + tokens_text(b),
    decreases a.len(),
{
    if a.len() == 0 {
        assert(a + b =~= b);
        assert(tokens_text(a) + tokens_text(b) =~= tokens_text(b));
    } else {
        assert((a + b).drop_first() =~= a.drop_first() + b);
        lemma_tokens_text_concat(a.drop_first(), b);
        assert(tokens_text(a + b) =~= token_text(a[0]) + (tokens_text(a.drop_first())
            + tokens_text(b)));
        assert(tokens_text(a) + tokens_text(b) =~= token_text(a[0]) + (tokens_text(a.drop_first())
            + tokens_text(b)));
    }
}

proof fn lemma_tokens_text_single(t: Token)
    ensures
        tokens_text(seq![t]) == token_text(t),
{
    assert(seq![t].drop_first() =~= Seq::<Token>::empty());
    assert(token_text(t) + tokens_text(Seq::<Token>::empty()) =~= token_text(t));
}

proof fn lemma_pending_text(s: Seq<char>, ts: int, i: int)
    requires
        0 <= ts <= i <= s.len(),
    ensures
        tokens_text(pending(s, ts, i)) == s.subrange(ts, i),
{
    if ts < i {
        lemma_tokens_text_single(Token::Text(s.subrange(ts, i)));
    } else {
        assert(tokens_text(pending(s, ts, i)) =~= s.subrange(ts, i));
    }
}

/// Every comment that the scan commits to, and that finds a terminating `>`,
/// closes with the genuine three-character sequence `-->`. On such inputs the
/// token sequence carries the source text exactly; a comment closed by a bare
/// `>` drops the two characters before it, whatever they were.
pub open spec fn scan_wf(s: Seq<char>, i: int, ts: int, nl_ok: bool) -> bool
    decreases s.len() - i,
    via scan_wf_decreases
{
    if !(0 <= ts && ts <= i && i <= s.len()) {
        true
    } else if i == s.len() {
        true
    } else if s[i] == '\n' {
        scan_wf(s, i + 1, i + 1, true)
    } else if s[i] == '\r' {
        if i + 1 < s.len() && s[i + 1] == '\n' {
            scan_wf(s, i + 2, i + 2, true)
        } else {
            scan_wf(s, i + 1, i + 1, true)
        }
    } else if s[i] == '#' && nl_ok && ts == i && heading_commits(s, i) {
        let j = hash_run_end(s, i + 1);
        let k = line_end(s, j + 1);
        scan_wf(s, k, k, false)
    } else if s[i] == '<' && comment_opens(s, i) {
        let gt = gt_end(s, i + 4);
        if gt < s.len() {
            gt >= i + 6 && s[gt - 2] == '-' && s[gt - 1] == '-' && scan_wf(s, gt + 1, gt + 1, false)
        } else {
            true
        }
    } else {
        scan_wf(s, i + 1, ts, nl_ok)
    }
}

#[via_fn]
proof fn scan_wf_decreases(s: Seq<char>, i: int, ts: int, nl_ok: bool) {
    if 0 <= ts && ts <= i && i < s.len() {
        lemma_hash_run_end_props(s, i + 1);
        let j: int = hash_run_end(s, i + 1);
        if j + 1 <= s.len() {
            lemma_line_end_props(s, j + 1);
        }
        if i + 4 <= s.len() {
            lemma_gt_end_props(s, i + 4);
        }
    }
}

/// The whole input is well formed for the partition law.
pub open spec fn parse_wf(s: Seq<char>) -> bool {
    scan_wf(s, 0, 0, true)
}

proof fn lemma_scan_wf_no_lt(s: Seq<char>, i: int, ts: int, nl_ok: bool)
    requires
        0 <= ts <= i <= s.len(),
        forall|m: int| 0 <= m < s.len() ==> s[m] != '<',
    ensures
        scan_wf(s, i, ts, nl_ok),
    decreases s.len() - i,
{
    if i == s.len() {
    } else if s[i] == '\n' {
        lemma_scan_wf_no_lt(s, i + 1, i + 1, true);
    } else if s[i] == '\r' {
        if i + 1 < s.len() && s[i + 1] == '\n' {
            lemma_scan_wf_no_lt(s, i + 2, i + 2, true);
        } else {
            lemma_scan_wf_no_lt(s, i + 1, i + 1, true);
        }
    } else if s[i] == '#' && nl_ok && ts == i && heading_commits(s, i) {
        let j: int = hash_run_end(s, i + 1);
        lemma_hash_run_end_props(s, i + 1);
        lemma_line_end_props(s, j + 1);
        let k: int = line_end(s, j + 1);
        lemma_scan_wf_no_lt(s, k, k, false);
    } else {
        lemma_scan_wf_no_lt(s, i + 1, ts, nl_ok);
    }
}

/// An input without `<` never opens a comment, so it is well formed for
/// the partition law: its tokens always reproduce it exactly.
pub proof fn lemma_no_lt_parse_wf(s: Seq<char>)
    requires
        forall|m: int| 0 <= m < s.len() ==> s[m] != '<',
    ensures
        parse_wf(s),
{
    lemma_scan_wf_no_lt(s, 0, 0, true);
}

proof fn lemma_scan_partition(s: Seq<char>, i: int, ts: int, nl_ok: bool)
    requires
        0 <= ts <= i <= s.len(),
        scan_wf(s, i, ts, nl_ok),
    ensures
        tokens_text(scan(s, i, ts, nl_ok)) == s.subrange(ts, s.len() as int),
    decreases s.len() - i,
{
    let all: int = s.len() as int;
    if i == s.len() {
        lemma_pending_text(s, ts, i);
    } else if s[i] == '\n' {
        let tok = Token::Newline(Newline::Unix);
        lemma_tokens_text_concat(pending(s, ts, i) + seq![tok], scan(s, i + 1, i + 1, true));
        lemma_tokens_text_concat(pending(s, ts, i), seq![tok]);
        lemma_pending_text(s, ts, i);
        lemma_tokens_text_single(tok);
        lemma_scan_partition(s, i + 1, i + 1, true);
        assert(s.subrange(ts, all) =~= s.subrange(ts, i) + seq!['\n'] + s.subrange(i + 1, all));
    } else if s[i] == '\r' {
        if i + 1 < s.len() && s[i + 1] == '\n' {
            let tok = Token::Newline(Newline::Windows);
            lemma_tokens_text_concat(pending(s, ts, i) + seq![tok], scan(s, i + 2, i + 2, true));
            lemma_tokens_text_concat(pending(s, ts, i), seq![tok]);
            lemma_pending_text(s, ts, i);
            lemma_tokens_text_single(tok);
            lemma_scan_partition(s, i + 2, i + 2, true);
            assert(s.subrange(ts, all) =~= s.subrange(ts, i) + seq!['\r', '\n'] + s.subrange(
                i + 2,
                all,
            ));
        } else {
            let tok = Token::Newline(Newline::Mac);
            lemma_tokens_text_concat(pending(s, ts, i) + seq![tok], scan(s, i + 1, i + 1, true));
            lemma_tokens_text_concat(pending(s, ts, i), seq![tok]);
            lemma_pending_text(s, ts, i);
            lemma_tokens_text_single(tok);
            lemma_scan_partition(s, i + 1, i + 1, true);
            assert(s.subrange(ts, all) =~= s.subrange(ts, i) + seq!['\r'] + s.subrange(
                i + 1,
                all,
            ));
        }
    } else if s[i] == '#' && nl_ok && ts == i && heading_commits(s, i) {
        lemma_hash_run_end_props(s, i + 1);
        let j: int = hash_run_end(s, i + 1);
        lemma_line_end_props(s, j + 1);
        let k: int = line_end(s, j + 1);
        let tok = Token::Heading { level: (j - (i + 1)) as nat, text: s.subrange(j + 1, k) };
        lemma_tokens_text_concat(seq![tok], scan(s, k, k, false));
        lemma_tokens_text_single(tok);
        lemma_scan_partition(s, k, k, false);
        assert(token_text(tok) =~= s.subrange(i, k)) by {
            assert(hashes((j - i) as nat) =~= s.subrange(i, j));
            assert(s.subrange(i, k) =~= s.subrange(i, j) + seq![' '] + s.subrange(j + 1, k));
        }
        assert(s.subrange(ts, all) =~= s.subrange(i, k) + s.subrange(k, all));
    } else if s[i] == '<' && comment_opens(s, i) {
        lemma_gt_end_props(s, i + 4);
        let gt: int = gt_end(s, i + 4);
        if gt < s.len() {
            let tok = Token::Comment(seq![Ok::<Seq<char>, Newline>(comment_content(s, i))]);
            lemma_tokens_text_concat(pending(s, ts, i) + seq![tok], scan(s, gt + 1, gt + 1, false));
            lemma_tokens_text_concat(pending(s, ts, i), seq![tok]);
            lemma_pending_text(s, ts, i);
            lemma_tokens_text_single(tok);
            lemma_scan_partition(s, gt + 1, gt + 1, false);
            assert(entries_text(seq![Ok::<Seq<char>, Newline>(comment_content(s, i))])
                =~= comment_content(s, i)) by {
                assert(seq![Ok::<Seq<char>, Newline>(comment_content(s, i))].drop_first()
                    =~= Seq::<Result<Seq<char>, Newline>>::empty());
                assert(entries_text(Seq::<Result<Seq<char>, Newline>>::empty())
                    =~= Seq::<char>::empty());
                assert(comment_content(s, i) + Seq::<char>::empty() =~= comment_content(s, i));
            }
            assert(token_text(tok) =~= s.subrange(i, gt + 1)) by {
                assert(seq!['<', '!', '-', '-'] =~= s.subrange(i, i + 4));
                assert(comment_content(s, i) =~= s.subrange(i + 4, gt - 2));
                assert(seq!['-', '-', '>'] =~= s.subrange(gt - 2, gt + 1));
                assert(s.subrange(i, gt + 1) =~= s.subrange(i, i + 4) + s.subrange(i + 4, gt - 2)
                    + s.subrange(gt - 2, gt + 1));
            }
            assert(s.subrange(ts, all) =~= s.subrange(ts, i) + s.subrange(i, gt + 1) + s.subrange(
                gt + 1,
                all,
            ));
        } else {
            lemma_tokens_text_single(Token::Text(s.subrange(ts, all)));
        }
    } else {
        lemma_scan_partition(s, i + 1, ts, nl_ok);
    }
}

/// Partition of the input.
///
/// On any input whose comments all close with a genuine `-->` (which
/// includes every input without comments, and inputs whose comment opener
/// is never terminated), concatenating the source text of all emitted
/// tokens, in order, reproduces the input exactly.
pub proof fn lemma_parse_partition(s: Seq<char>)
    requires
        parse_wf(s),
    ensures
        tokens_text(spec_parse(s)) == s,
{
    lemma_scan_partition(s, 0, 0, true);
    assert(s.subrange(0, s.len() as int) =~= s);
}

/// A token is either not a text run, or a non-empty one.
pub open spec fn nonempty_text(t: Token) -> bool {
    t matches Token::Text(x) ==> x.len() > 0
}

proof fn lemma_scan_no_empty_text(s: Seq<char>, i: int, ts: int, nl_ok: bool, k: int)
    requires
        0 <= ts <= i <= s.len(),
        0 <= k < scan(s, i, ts, nl_ok).len(),
    ensures
        nonempty_text(scan(s, i, ts, nl_ok)[k]),
    decreases s.len() - i,
{
    let res = scan(s, i, ts, nl_ok);
    let p = pending(s, ts, i);
    if i == s.len() {
        assert(res[k] == Token::Text(s.subrange(ts, i)));
        assert(s.subrange(ts, i).len() > 0);
    } else if s[i] == '\n' {
        if k < p.len() {
            assert(res[k] == Token::Text(s.subrange(ts, i)));
        } else if k > p.len() {
            lemma_scan_no_empty_text(s, i + 1, i + 1, true, k - p.len() - 1);
        }
    } else if s[i] == '\r' {
        if i + 1 < s.len() && s[i + 1] == '\n' {
            if k < p.len() {
                assert(res[k] == Token::Text(s.subrange(ts, i)));
            } else if k > p.len() {
                lemma_scan_no_empty_text(s, i + 2, i + 2, true, k - p.len() - 1);
            }
        } else {
            if k < p.len() {
                assert(res[k] == Token::Text(s.subrange(ts, i)));
            } else if k > p.len() {
                lemma_scan_no_empty_text(s, i + 1, i + 1, true, k - p.len() - 1);
            }
        }
    } else if s[i] == '#' && nl_ok && ts == i && heading_commits(s, i) {
        let j: int = hash_run_end(s, i + 1);
        lemma_hash_run_end_props(s, i + 1);
        lemma_line_end_props(s, j + 1);
        let kk: int = line_end(s, j + 1);
        if k > 0 {
            lemma_scan_no_empty_text(s, kk, kk, false, k - 1);
        }
    } else if s[i] == '<' && comment_opens(s, i) {
        let gt: int = gt_end(s, i + 4);
        lemma_gt_end_props(s, i + 4);
        if gt < s.len() {
            if k < p.len() {
                assert(res[k] == Token::Text(s.subrange(ts, i)));
            } else if k > p.len() {
                lemma_scan_no_empty_text(s, gt + 1, gt + 1, false, k - p.len() - 1);
            }
        } else {
            assert(res[k] == Token::Text(s.subrange(ts, s.len() as int)));
            assert(s.subrange(ts, s.len() as int).len() > 0);
        }
    } else {
        lemma_scan_no_empty_text(s, i + 1, ts, nl_ok, k);
    }
}

/// No emitted text token is empty, on any input.
pub proof fn lemma_parse_no_empty_text(s: Seq<char>)
    ensures
        forall|k: int|
            0 <= k < spec_parse(s).len() ==> nonempty_text(#[trigger] spec_parse(s)[k]),
{
    assert forall|k: int| 0 <= k < spec_parse(s).len() implies nonempty_text(
        #[trigger] spec_parse(s)[k],
    ) by {
        lemma_scan_no_empty_text(s, 0, 0, true, k);
    }
}


/// A text run that begins like a committed heading: a leading `#`, a run of
/// hashes, and then a single space.
pub open spec fn heading_start(t: Seq<char>) -> bool {
    t.len() > 0 && t[0] == '#' && heading_commits(t, 0)
}

proof fn lemma_rescan_inert(t: Seq<char>, m: int)
    requires
        0 < t.len(),
        0 <= m <= t.len(),
        forall|q: int| 0 <= q < t.len() ==> t[q] != '\n' && t[q] != '\r',
        forall|q: int| 0 <= q < t.len() ==> !comment_opens(t, q),
        !heading_start(t),
    ensures
        scan(t, m, 0, true) == seq![Token::Text(t)],
    decreases t.len() - m,
{
    if m == t.len() {
        assert(t.subrange(0, t.len() as int) =~= t);
    } else {
        lemma_rescan_inert(t, m + 1);
    }
}

proof fn lemma_rescan_fallback(t: Seq<char>, c: int, m: int)
    requires
        0 <= m <= c,
        c + 3 < t.len(),
        forall|q: int| 0 <= q < c ==> t[q] != '\n' && t[q] != '\r',
        forall|q: int| 0 <= q < c ==> !comment_opens(t, q),
        t[c] == '<' && t[c + 1] == '!' && t[c + 2] == '-' && t[c + 3] == '-',
        gt_end(t, c + 4) == t.len(),
        !heading_start(t),
    ensures
        scan(t, m, 0, true) == seq![Token::Text(t)],
    decreases c - m,
{
    if m == c {
        assert(comment_opens(t, c));
        assert(t.subrange(0, t.len() as int) =~= t);
    } else {
        lemma_rescan_fallback(t, c, m + 1);
    }
}

proof fn lemma_scan_text_rescan(s: Seq<char>, i: int, ts: int, nl_ok: bool, k: int)
    requires
        0 <= ts <= i <= s.len(),
        forall|m: int| ts <= m < i ==> s[m] != '\n' && s[m] != '\r',
        forall|m: int| ts <= m < i ==> !comment_opens(s, m),
        nl_ok && ts < i && s[ts] == '#' ==> !heading_commits(s, ts),
        0 <= k < scan(s, i, ts, nl_ok).len(),
        scan(s, i, ts, nl_ok)[k] matches Token::Text(t) ==> !heading_start(t),
    ensures
        scan(s, i, ts, nl_ok)[k] matches Token::Text(t) ==> spec_parse(t) == seq![
            Token::Text(t),
        ],
    decreases s.len() - i,
{
    let res = scan(s, i, ts, nl_ok);
    let p = pending(s, ts, i);
    if i == s.len() {
        let t = s.subrange(ts, i);
        assert(res[k] == Token::Text(t));
        lemma_rescan_pending(s, ts, i, nl_ok);
    } else if s[i] == '\n' {
        if k < p.len() {
            lemma_rescan_pending(s, ts, i, nl_ok);
            assert(res[k] == Token::Text(s.subrange(ts, i)));
        } else if k == p.len() {
            assert(res[k] == Token::Newline(Newline::Unix));
        } else {
            lemma_scan_text_rescan(s, i + 1, i + 1, true, k - p.len() - 1);
            assert(res[k] == scan(s, i + 1, i + 1, true)[k - p.len() - 1]);
        }
    } else if s[i] == '\r' {
        if i + 1 < s.len() && s[i + 1] == '\n' {
            if k < p.len() {
                lemma_rescan_pending(s, ts, i, nl_ok);
                assert(res[k] == Token::Text(s.subrange(ts, i)));
            } else if k == p.len() {
                assert(res[k] == Token::Newline(Newline::Windows));
            } else {
                lemma_scan_text_rescan(s, i + 2, i + 2, true, k - p.len() - 1);
                assert(res[k] == scan(s, i + 2, i + 2, true)[k - p.len() - 1]);
            }
        } else {
            if k < p.len() {
                lemma_rescan_pending(s, ts, i, nl_ok);
                assert(res[k] == Token::Text(s.subrange(ts, i)));
            } else if k == p.len() {
                assert(res[k] == Token::Newline(Newline::Mac));
            } else {
                lemma_scan_text_rescan(s, i + 1, i + 1, true, k - p.len() - 1);
                assert(res[k] == scan(s, i + 1, i + 1, true)[k - p.len() - 1]);
            }
        }
    } else if s[i] == '#' && nl_ok && ts == i && heading_commits(s, i) {
        let j: int = hash_run_end(s, i + 1);
        lemma_hash_run_end_props(s, i + 1);
        lemma_line_end_props(s, j + 1);
        let kk: int = line_end(s, j + 1);
        if k == 0 {
            assert(res[k] == Token::Heading {
                level: (j - (i + 1)) as nat,
                text: s.subrange(j + 1, kk),
            });
        } else {
            lemma_scan_text_rescan(s, kk, kk, false, k - 1);
            assert(res[k] == scan(s, kk, kk, false)[k - 1]);
        }
    } else if s[i] == '<' && comment_opens(s, i) {
        let gt: int = gt_end(s, i + 4);
        lemma_gt_end_props(s, i + 4);
        if gt < s.len() {
            if k < p.len() {
                lemma_rescan_pending(s, ts, i, nl_ok);
                assert(res[k] == Token::Text(s.subrange(ts, i)));
            } else if k == p.len() {
                assert(res[k] == Token::Comment(seq![
                    Ok::<Seq<char>, Newline>(comment_content(s, i)),
                ]));
            } else {
                lemma_scan_text_rescan(s, gt + 1, gt + 1, false, k - p.len() - 1);
                assert(res[k] == scan(s, gt + 1, gt + 1, false)[k - p.len() - 1]);
            }
        } else {
            let t = s.subrange(ts, s.len() as int);
            assert(res[k] == Token::Text(t));
            if !heading_start(t) {
                let c: int = i - ts;
                assert forall|q: int| 0 <= q < c implies t[q] != '\n' && t[q] != '\r' by {
                    assert(t[q] == s[ts + q]);
                }
                assert forall|q: int| 0 <= q < c implies !comment_opens(t, q) by {
                    if q + 3 < t.len() {
                        assert(t[q] == s[ts + q] && t[q + 1] == s[ts + q + 1] && t[q + 2] == s[ts
                            + q + 2] && t[q + 3] == s[ts + q + 3]);
                        assert(!comment_opens(s, ts + q));
                    }
                }
                assert(t[c] == '<' && t[c + 1] == '!' && t[c + 2] == '-' && t[c + 3] == '-');
                assert(gt_end(t, c + 4) == t.len()) by {
                    assert(gt == s.len());
                    assert forall|q: int| c + 4 <= q < t.len() implies t[q] != '>' by {
                        assert(t[q] == s[ts + q]);
                    }
                    crate::parse::lemma_gt_end_is(t, c + 4, t.len() as int);
                }
                lemma_rescan_fallback(t, c, 0);
            }
        }
    } else {
        assert forall|m: int| ts <= m < i + 1 implies !comment_opens(s, m) by {
            if m == i {
                assert(!(s[i] == '<' && comment_opens(s, i)));
            }
        }
        assert(nl_ok && ts < i + 1 && s[ts] == '#' ==> !heading_commits(s, ts)) by {
            if nl_ok && ts == i && s[i] == '#' {
                assert(!heading_commits(s, i));
            }
        }
        lemma_scan_text_rescan(s, i + 1, ts, nl_ok, k);
    }
}

/// The pending run `[ts, i)` re-tokenizes to itself: its characters were all
/// scanned without producing a token, so they hold no line terminator and no
/// full comment opener; a heading-like start is possible only when the run
/// was not at a heading-eligible position.
proof fn lemma_rescan_pending(s: Seq<char>, ts: int, i: int, nl_ok: bool)
    requires
        0 <= ts < i <= s.len(),
        forall|m: int| ts <= m < i ==> s[m] != '\n' && s[m] != '\r',
        forall|m: int| ts <= m < i ==> !comment_opens(s, m),
        nl_ok && s[ts] == '#' ==> !heading_commits(s, ts),
    ensures
        !heading_start(s.subrange(ts, i)) ==> spec_parse(s.subrange(ts, i)) == seq![
            Token::Text(s.subrange(ts, i)),
        ],
{
    let t = s.subrange(ts, i);
    if !heading_start(t) {
        assert forall|q: int| 0 <= q < t.len() implies t[q] != '\n' && t[q] != '\r' by {
            assert(t[q] == s[ts + q]);
        }
        assert forall|q: int| 0 <= q < t.len() implies !comment_opens(t, q) by {
            if q + 3 < t.len() {
                assert(t[q] == s[ts + q] && t[q + 1] == s[ts + q + 1] && t[q + 2] == s[ts + q + 2]
                    && t[q + 3] == s[ts + q + 3]);
                assert(!comment_opens(s, ts + q));
            }
        }
        lemma_rescan_inert(t, 0);
    }
}

/// Idempotence of re-scanning an emitted text token.
///
/// Feeding any single emitted text token back into the scan yields exactly
/// one text token equal to it, provided the token does not itself begin
/// like a heading (a run of hashes followed by a single space). Such a
/// token arises only directly after a comment token, where the scan refuses
/// a heading but a fresh scan of the token alone would commit to one.
pub proof fn lemma_parse_text_rescan(s: Seq<char>, k: int)
    requires
        0 <= k < spec_parse(s).len(),
        spec_parse(s)[k] matches Token::Text(t) ==> !heading_start(t),
    ensures
        spec_parse(s)[k] matches Token::Text(t) ==> spec_parse(t) == seq![Token::Text(t)],
{
    lemma_scan_text_rescan(s, 0, 0, true, k);
}

} // verus!
