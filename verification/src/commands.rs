//! Chat command parsing: the `/say` announcement and `/nick` rename
//! commands, tokenised on single spaces exactly as typed.

use vstd::prelude::*;
use crate::fields::{nonempty_of, sep_kind_pred, split_kind, split_on, views_of, SepKind};

verus! {

/// Length of the longest prefix of `s` without a newline.
pub open spec fn no_nl_prefix_len(s: Seq<char>) -> int
    decreases s.len(),
{
    if s.len() == 0 || s[0] == '\n' {
        0
    } else {
        1 + no_nl_prefix_len(s.skip(1))
    }
}

/// The prefix without newlines is exactly the run before the first one.
proof fn lemma_no_nl_prefix_characterization(s: Seq<char>, k: int)
    requires
        0 <= k <= s.len(),
        forall|i: int| 0 <= i < k ==> s[i] != '\n',
        k == s.len() || s[k] == '\n',
    ensures
        no_nl_prefix_len(s) == k,
    decreases s.len(),
{
    if k == 0 {
    } else {
        let t = s.skip(1);
        assert(forall|i: int| 0 <= i < k - 1 ==> t[i] == s[i + 1]);
        if k < s.len() {
            assert(t[k - 1] == s[k]);
        }
        lemma_no_nl_prefix_characterization(t, k - 1);
    }
}

/// An announcement token as the `/say` command cleans it: cut at the
/// first newline, or followed by a single space when it has none.
pub open spec fn tok_clean(t: Seq<char>) -> Seq<char> {
    let k = no_nl_prefix_len(t);
    if k == t.len() {
        t + seq![' ']
    } else {
        t.take(k)
    }
}

/// The cleaned tokens of an announcement, concatenated.
pub open spec fn join_clean(ts: Seq<Seq<char>>) -> Seq<char>
    decreases ts.len(),
{
    if ts.len() == 0 {
        Seq::<char>::empty()
    } else {
        join_clean(ts.drop_last()) + tok_clean(ts.last())
    }
}

/// What the `/say` command announces: tokens after `say` (and after a
/// `-w` switch that preserves whitespace-only tokens), cleaned and
/// joined; nothing when the words are missing or the result is empty.
pub open spec fn spec_parse_say(s: Seq<char>) -> Option<Seq<char>> {
    let toks = split_on(s, sep_kind_pred(SepKind::Space));
    if toks[0] != seq!['s', 'a', 'y'] {
        None
    } else {
        let preserve = toks.len() >= 2 && toks[1] == seq!['-', 'w'];
        let rest = if preserve {
            toks.skip(2)
        } else {
            toks.skip(1)
        };
        let kept = if preserve {
            rest
        } else {
            nonempty_of(rest)
        };
        let ann = join_clean(kept);
        if ann.len() == 0 || ann == seq!['-', 'w'] {
            None
        } else {
            Some(ann)
        }
    }
}

/// Whether the character at `i` is a newline.
fn nl_at(s: &str, i: usize) -> (r: bool)
    requires
        i < s@.len(),
    ensures
        r == (s@[i as int] == '\n'),
{
    s.get_char(i) == '\n'
}

/// Clean one announcement token.
fn clean_token(t: &String) -> (r: String)
    ensures
        r@ == tok_clean(t@),
{
    let s = t.as_str();
    let n = s.unicode_len();
    let mut k: usize = 0;
    while k < n && !nl_at(s, k)
        invariant
            0 <= k <= n,
            n == t@.len(),
            s@ == t@,
            forall|i: int| 0 <= i < k ==> t@[i] != '\n',
        decreases n - k,
    {
        k += 1;
    }
    proof {
        lemma_no_nl_prefix_characterization(t@, k as int);
    }
    if k == n {
        let mut r = t.clone();
        r.append(" ");
        proof {
            reveal_strlit(" ");
            assert(" "@ =~= seq![' ']);
            assert(r@ =~= tok_clean(t@));
        }
        r
    } else {
        let r = s.substring_char(0, k).to_owned();
        proof {
            assert(r@ =~= t@.take(k as int));
        }
        r
    }
}

/// Separate a chat line that invokes a command from plain chat: a
/// leading slash yields the command text after it.
pub fn strip_slash(text: &str) -> (r: Option<String>)
    ensures
        match r {
            Some(rest) => text@.len() >= 1 && text@[0] == '/' && rest@ == text@.skip(1),
            None => text@.len() == 0 || text@[0] != '/',
        },
{
    let n = text.unicode_len();
    if n == 0 {
        return None;
    }
    if text.get_char(0) != '/' {
        return None;
    }
    let rest = text.substring_char(1, n).to_owned();
    proof {
        assert(rest@ =~= text@.skip(1));
    }
    Some(rest)
}

/// Whether `s` begins with the prefix `p`.
pub fn has_prefix(s: &str, p: &str) -> (r: bool)
    ensures
        r == (s@.len() >= p@.len() && s@.take(p@.len() as int) == p@),
{
    let sn = s.unicode_len();
    let pn = p.unicode_len();
    if sn < pn {
        return false;
    }
    let head = s.substring_char(0, pn).to_owned();
    let r = head == p.to_owned();
    proof {
        assert(head@ =~= s@.take(p@.len() as int));
    }
    r
}

/// Parse a `/say` command (without the slash). Yields the announcement
/// to broadcast, or nothing on invalid usage.
pub fn parse_say(command: &str) -> (r: Option<String>)
    ensures
        match r {
            Some(t) => spec_parse_say(command@) == Some(t@),
            None => spec_parse_say(command@) is None,
        },
{
    let toks = split_kind(command, SepKind::Space);
    let ghost tviews = split_on(command@, sep_kind_pred(SepKind::Space));
    proof {
        reveal_strlit("say");
        assert("say"@ =~= seq!['s', 'a', 'y']);
        assert(toks@[0]@ == tviews[0]);
    }
    if !(toks[0] == "say".to_owned()) {
        return None;
    }
    let mut preserve = false;
    if toks.len() >= 2 {
        proof {
            reveal_strlit("-w");
            assert("-w"@ =~= seq!['-', 'w']);
            assert(toks@[1]@ == tviews[1]);
        }
        preserve = toks[1] == "-w".to_owned();
    }
    let start: usize = if preserve {
        2
    } else {
        1
    };
    let ghost restv = tviews.skip(start as int);
    let mut rest: Vec<String> = Vec::new();
    let mut i: usize = start;
    proof {
        assert(views_of(rest@) =~= restv.take(0));
    }
    while i < toks.len()
        invariant
            start <= i <= toks@.len(),
            start <= toks@.len() || rest@.len() == 0,
            restv == views_of(toks@).skip(start as int),
            start == if preserve {
                2int
            } else {
                1int
            },
            views_of(rest@) == restv.take(i - start),
        decreases toks@.len() - i,
    {
        let ghost before = views_of(rest@);
        rest.push(toks[i].clone());
        proof {
            assert(restv[i - start] == views_of(toks@)[i as int]);
            assert(views_of(rest@) =~= before.push(toks@[i as int]@));
            assert(restv.take(i - start + 1) =~= restv.take(i - start).push(restv[i - start]));
        }
        i += 1;
    }
    proof {
        if start <= toks@.len() {
            assert(restv.take(toks@.len() - start) =~= restv);
        } else {
            // Only `say` itself with no `-w`: nothing follows.
            assert(restv =~= Seq::<Seq<char>>::empty());
            assert(views_of(rest@) =~= restv);
        }
    }
    let kept: Vec<String> = if preserve {
        rest
    } else {
        crate::fields::keep_nonempty(&rest)
    };
    let ghost keptv = if preserve {
        restv
    } else {
        nonempty_of(restv)
    };
    proof {
        assert(views_of(kept@) == keptv);
    }
    let mut ann = String::new();
    let mut j: usize = 0;
    proof {
        assert(ann@ =~= join_clean(keptv.take(0)));
    }
    while j < kept.len()
        invariant
            0 <= j <= kept@.len(),
            keptv == views_of(kept@),
            ann@ == join_clean(keptv.take(j as int)),
        decreases kept@.len() - j,
    {
        let piece = clean_token(&kept[j]);
        ann.append(piece.as_str());
        proof {
            assert(keptv.take(j as int + 1).drop_last() =~= keptv.take(j as int));
            assert(keptv.take(j as int + 1).last() == kept@[j as int]@);
        }
        j += 1;
    }
    proof {
        assert(keptv.take(keptv.len() as int) =~= keptv);
        reveal_strlit("-w");
        assert("-w"@ =~= seq!['-', 'w']);
    }
    if ann.as_str().is_empty() || ann == "-w".to_owned() {
        None
    } else {
        Some(ann)
    }
}

/// A control character (the C0 and C1 ranges and delete), as stripped
/// from nicknames.
pub open spec fn is_ctrl(c: char) -> bool {
    (c as u32) < 32 || (127 <= c as u32 <= 159)
}

/// A whitespace character, as trimmed from nicknames.
pub open spec fn is_ws(c: char) -> bool {
    ||| 9 <= c as u32 <= 13
    ||| c as u32 == 32
    ||| c as u32 == 133
    ||| c as u32 == 160
    ||| c as u32 == 5760
    ||| 8192 <= c as u32 <= 8202
    ||| c as u32 == 8232
    ||| c as u32 == 8233
    ||| c as u32 == 8239
    ||| c as u32 == 8287
    ||| c as u32 == 12288
}

/// A candidate nickname with leading and trailing whitespace removed.
pub open spec fn strip_ws(s: Seq<char>) -> Seq<char>
    decreases s.len(),
{
    if s.len() == 0 {
        s
    } else if is_ws(s[0]) {
        strip_ws(s.skip(1))
    } else if is_ws(s.last()) {
        strip_ws(s.drop_last())
    } else {
        s
    }
}

/// The trimmed nickname is the span between the outermost
/// non-whitespace characters.
proof fn lemma_strip_ws_range(s: Seq<char>, a: int, b: int)
    requires
        0 <= a <= b <= s.len(),
        forall|i: int| 0 <= i < a ==> is_ws(#[trigger] s[i]),
        forall|i: int| b <= i < s.len() ==> is_ws(#[trigger] s[i]),
        a == b || (!is_ws(s[a]) && !is_ws(s[b - 1])),
    ensures
        strip_ws(s) == s.subrange(a, b),
    decreases s.len(),
{
    if s.len() == 0 {
        assert(strip_ws(s) =~= s.subrange(a, b));
    } else if is_ws(s[0]) {
        let t = s.skip(1);
        assert(forall|i: int| 0 <= i < t.len() ==> t[i] == s[i + 1]);
        if a > 0 {
            lemma_strip_ws_range(t, a - 1, b - 1);
            assert(t.subrange(a - 1, b - 1) =~= s.subrange(a, b));
        } else {
            assert(a == b);
            lemma_strip_ws_range(t, 0, 0);
            assert(t.subrange(0, 0) =~= s.subrange(a, b));
        }
    } else if is_ws(s.last()) {
        let t = s.drop_last();
        assert(forall|i: int| 0 <= i < t.len() ==> t[i] == s[i]);
        if b <= t.len() {
            lemma_strip_ws_range(t, a, b);
            assert(t.subrange(a, b) =~= s.subrange(a, b));
        } else {
            assert(a == b);
            lemma_strip_ws_range(t, t.len() as int, t.len() as int);
            assert(t.subrange(t.len() as int, t.len() as int) =~= s.subrange(a, b));
        }
    } else {
        assert(a == 0);
        assert(b == s.len());
        assert(s.subrange(0, s.len() as int) =~= s);
    }
}

/// A candidate nickname with leading and trailing control characters
/// removed.
pub open spec fn strip_ctrl(s: Seq<char>) -> Seq<char>
    decreases s.len(),
{
    if s.len() == 0 {
        s
    } else if is_ctrl(s[0]) {
        strip_ctrl(s.skip(1))
    } else if is_ctrl(s.last()) {
        strip_ctrl(s.drop_last())
    } else {
        s
    }
}

/// The stripped nickname is the span between the outermost non-control
/// characters.
proof fn lemma_strip_ctrl_range(s: Seq<char>, a: int, b: int)
    requires
        0 <= a <= b <= s.len(),
        forall|i: int| 0 <= i < a ==> is_ctrl(#[trigger] s[i]),
        forall|i: int| b <= i < s.len() ==> is_ctrl(#[trigger] s[i]),
        a == b || (!is_ctrl(s[a]) && !is_ctrl(s[b - 1])),
    ensures
        strip_ctrl(s) == s.subrange(a, b),
    decreases s.len(),
{
    if s.len() == 0 {
        assert(strip_ctrl(s) =~= s.subrange(a, b));
    } else if is_ctrl(s[0]) {
        assert(a > 0 || a == b || !(a == 0 && b > 0));
        let t = s.skip(1);
        assert(forall|i: int| 0 <= i < t.len() ==> t[i] == s[i + 1]);
        if a > 0 {
            lemma_strip_ctrl_range(t, a - 1, b - 1);
            assert(t.subrange(a - 1, b - 1) =~= s.subrange(a, b));
        } else {
            // a == 0 and s[0] is control, so the span is empty.
            assert(a == b);
            lemma_strip_ctrl_range(t, 0, 0);
            assert(t.subrange(0, 0) =~= s.subrange(a, b));
        }
    } else if is_ctrl(s.last()) {
        let t = s.drop_last();
        assert(forall|i: int| 0 <= i < t.len() ==> t[i] == s[i]);
        assert(b < s.len() || a == b || !is_ctrl(s[b - 1]));
        if b <= t.len() {
            lemma_strip_ctrl_range(t, a, b);
            assert(t.subrange(a, b) =~= s.subrange(a, b));
        } else {
            // b covers the control character at the end: impossible
            // unless the span is empty.
            assert(a == b);
            lemma_strip_ctrl_range(t, t.len() as int, t.len() as int);
            assert(t.subrange(t.len() as int, t.len() as int) =~= s.subrange(a, b));
        }
    } else {
        assert(a == 0);
        assert(b == s.len());
        assert(s.subrange(0, s.len() as int) =~= s);
    }
}

/// What the `/nick` command accepts: exactly one argument after `nick`,
/// holding some character that is neither whitespace nor control; the
/// new nickname is the argument trimmed of whitespace and then of
/// control characters at its ends.
pub open spec fn spec_parse_nick(s: Seq<char>) -> Option<Seq<char>> {
    let toks = split_on(s, sep_kind_pred(SepKind::Space));
    if toks[0] != seq!['n', 'i', 'c', 'k'] {
        None
    } else if toks.len() != 2 {
        None
    } else if exists|i: int|
        0 <= i < toks[1].len() && !is_ws(#[trigger] toks[1][i]) && !is_ctrl(toks[1][i]) {
        Some(strip_ctrl(strip_ws(toks[1])))
    } else {
        None
    }
}

/// Whether the character at `i` is an ASCII control character.
fn ctrl_at(s: &str, i: usize) -> (r: bool)
    requires
        i < s@.len(),
    ensures
        r == is_ctrl(s@[i as int]),
{
    let cv = s.get_char(i) as u32;
    cv < 32 || (127 <= cv && cv <= 159)
}

/// Whether the character at `i` is whitespace.
fn ws_at(s: &str, i: usize) -> (r: bool)
    requires
        i < s@.len(),
    ensures
        r == is_ws(s@[i as int]),
{
    let cv = s.get_char(i) as u32;
    (9 <= cv && cv <= 13) || cv == 32 || cv == 133 || cv == 160 || cv == 5760 || (8192 <= cv && cv
        <= 8202) || cv == 8232 || cv == 8233 || cv == 8239 || cv == 8287 || cv == 12288
}

/// Whether the character at `i` is neither whitespace nor control.
fn printable_at(s: &str, i: usize) -> (r: bool)
    requires
        i < s@.len(),
    ensures
        r == (!is_ws(s@[i as int]) && !is_ctrl(s@[i as int])),
{
    !ws_at(s, i) && !ctrl_at(s, i)
}

/// Parse a `/nick` command (without the slash). Yields the validated new
/// nickname, or nothing on invalid usage.
pub fn parse_nick(command: &str) -> (r: Option<String>)
    ensures
        match r {
            Some(t) => spec_parse_nick(command@) == Some(t@),
            None => spec_parse_nick(command@) is None,
        },
{
    let toks = split_kind(command, SepKind::Space);
    let ghost tviews = split_on(command@, sep_kind_pred(SepKind::Space));
    proof {
        reveal_strlit("nick");
        assert("nick"@ =~= seq!['n', 'i', 'c', 'k']);
        assert(toks@[0]@ == tviews[0]);
    }
    if !(toks[0] == "nick".to_owned()) {
        return None;
    }
    if toks.len() != 2 {
        return None;
    }
    let arg = toks[1].as_str();
    let ghost av = tviews[1];
    proof {
        assert(toks@[1]@ == tviews[1]);
    }
    let n = arg.unicode_len();
    // Find a character that is neither whitespace nor control.
    let mut p: usize = 0;
    while p < n && !printable_at(arg, p)
        invariant
            0 <= p <= n,
            n == av.len(),
            arg@ == av,
            forall|i: int| 0 <= i < p ==> is_ws(#[trigger] av[i]) || is_ctrl(av[i]),
        decreases n - p,
    {
        p += 1;
    }
    if p == n {
        // Whitespace and control characters only: invalid usage.
        proof {
            assert(forall|i: int|
                0 <= i < av.len() ==> !(!is_ws(#[trigger] av[i]) && !is_ctrl(av[i])));
        }
        return None;
    }
    proof {
        assert(!is_ws(av[p as int]) && !is_ctrl(av[p as int]));
    }
    // Trim whitespace from both ends.
    let mut a1: usize = 0;
    while a1 < n && ws_at(arg, a1)
        invariant
            0 <= a1 <= n,
            n == av.len(),
            arg@ == av,
            forall|i: int| 0 <= i < a1 ==> is_ws(#[trigger] av[i]),
        decreases n - a1,
    {
        a1 += 1;
    }
    let mut b1: usize = n;
    while b1 > a1 && ws_at(arg, b1 - 1)
        invariant
            a1 <= b1 <= n,
            n == av.len(),
            arg@ == av,
            forall|i: int| b1 <= i < n ==> is_ws(#[trigger] av[i]),
        decreases b1,
    {
        b1 -= 1;
    }
    proof {
        // The printable character bounds the whitespace trim.
        assert(a1 <= p < b1) by {
            if p < a1 {
                assert(is_ws(av[p as int]));
            }
            if p >= b1 {
                assert(is_ws(av[p as int]));
            }
        }
        assert(!is_ws(av[a1 as int]));
        assert(!is_ws(av[b1 - 1]));
        lemma_strip_ws_range(av, a1 as int, b1 as int);
    }
    let trimmed = arg.substring_char(a1, b1);
    let ghost tv = av.subrange(a1 as int, b1 as int);
    proof {
        assert(trimmed@ =~= tv);
        assert(tv == strip_ws(av));
        assert(tv[p - a1] == av[p as int]);
    }
    // Trim control characters from both ends of the result.
    let m = trimmed.unicode_len();
    let mut a2: usize = 0;
    while a2 < m && ctrl_at(trimmed, a2)
        invariant
            0 <= a2 <= m,
            m == tv.len(),
            trimmed@ == tv,
            forall|i: int| 0 <= i < a2 ==> is_ctrl(#[trigger] tv[i]),
        decreases m - a2,
    {
        a2 += 1;
    }
    let mut b2: usize = m;
    while b2 > a2 && ctrl_at(trimmed, b2 - 1)
        invariant
            a2 <= b2 <= m,
            m == tv.len(),
            trimmed@ == tv,
            forall|i: int| b2 <= i < m ==> is_ctrl(#[trigger] tv[i]),
        decreases b2,
    {
        b2 -= 1;
    }
    proof {
        assert(a2 <= p - a1 < b2) by {
            if p - a1 < a2 {
                assert(is_ctrl(tv[p - a1]));
            }
            if p - a1 >= b2 {
                assert(is_ctrl(tv[p - a1]));
            }
        }
        assert(!is_ctrl(tv[a2 as int]));
        assert(!is_ctrl(tv[b2 - 1]));
        lemma_strip_ctrl_range(tv, a2 as int, b2 as int);
    }
    let nick = trimmed.substring_char(a2, b2).to_owned();
    proof {
        assert(nick@ =~= tv.subrange(a2 as int, b2 as int));
        assert(nick@ == strip_ctrl(strip_ws(av)));
    }
    Some(nick)
}

} // verus!