//! The nickname registry: a mapping from peer IP addresses (held as
//! plain text) to nicknames, with the line format used to persist it.

use vstd::prelude::*;
use crate::fields::{nonempty_of, sep_kind_pred, split_kind, split_on, views_of, SepKind};
use crate::world::{
    assoc_get, lemma_assoc_get_absent, lemma_assoc_get_at, lemma_assoc_get_push,
    lemma_assoc_get_update, unique_keys,
};

verus! {

/// Count the equals signs in a line.
pub open spec fn count_eq(s: Seq<char>) -> int
    decreases s.len(),
{
    if s.len() == 0 {
        0
    } else {
        count_eq(s.drop_last()) + if s.last() == '=' {
            1int
        } else {
            0int
        }
    }
}

/// What one registry line means: with exactly one equals sign and
/// exactly two nonempty tokens around separators, the address and the
/// nickname; anything else is malformed.
pub open spec fn spec_parse_nick_line(s: Seq<char>) -> Option<(Seq<char>, Seq<char>)> {
    if count_eq(s) != 1 {
        None
    } else {
        let toks = nonempty_of(split_on(s, sep_kind_pred(SepKind::Assign)));
        if toks.len() != 2 {
            None
        } else {
            Some((toks[0], toks[1]))
        }
    }
}

/// One rendered registry line for an entry, newline-terminated.
pub open spec fn nick_line(ip: Seq<char>, nick: Seq<char>) -> Seq<char> {
    ip + seq![' ', '=', ' '] + nick + seq!['\n']
}

/// The rendered registry file for a sequence of entries.
pub open spec fn render_lines(s: Seq<(Seq<char>, Seq<char>)>) -> Seq<char>
    decreases s.len(),
{
    if s.len() == 0 {
        Seq::<char>::empty()
    } else {
        render_lines(s.drop_last()) + nick_line(s.last().0, s.last().1)
    }
}

/// Counting equals signs distributes over concatenation.
proof fn lemma_count_eq_concat(a: Seq<char>, b: Seq<char>)
    ensures
        count_eq(a + b) == count_eq(a) + count_eq(b),
    decreases b.len(),
{
    if b.len() == 0 {
        assert(a + b =~= a);
    } else {
        assert((a + b).drop_last() =~= a + b.drop_last());
        assert((a + b).last() == b.last());
        lemma_count_eq_concat(a, b.drop_last());
    }
}

/// A string without an equals sign counts zero of them.
proof fn lemma_count_eq_zero(s: Seq<char>)
    requires
        forall|i: int| 0 <= i < s.len() ==> (#[trigger] s[i]) != '=',
    ensures
        count_eq(s) == 0,
    decreases s.len(),
{
    if s.len() > 0 {
        assert(s.last() == s[s.len() - 1]);
        assert(forall|i: int| 0 <= i < s.drop_last().len() ==> s.drop_last()[i] == s[i]);
        lemma_count_eq_zero(s.drop_last());
    }
}

/// Splitting a rendered entry line yields the address, two empty pieces
/// from the separators, and the nickname.
proof fn lemma_line_split(ip: Seq<char>, nick: Seq<char>)
    requires
        forall|i: int| 0 <= i < ip.len() ==> !sep_kind_pred(SepKind::Assign)(#[trigger] ip[i]),
        forall|i: int| 0 <= i < nick.len() ==> !sep_kind_pred(SepKind::Assign)(#[trigger] nick[i]),
    ensures
        split_on(ip + seq![' ', '=', ' '] + nick, sep_kind_pred(SepKind::Assign)) == seq![
            ip,
            Seq::<char>::empty(),
            Seq::<char>::empty(),
            nick,
        ],
    decreases ip.len(),
{
    let sep = sep_kind_pred(SepKind::Assign);
    let s = ip + seq![' ', '=', ' '] + nick;
    if ip.len() == 0 {
        assert(s[0] == ' ');
        assert(sep(' '));
        let s1 = s.skip(1);
        assert(s1 =~= seq!['=', ' '] + nick);
        assert(s1[0] == '=');
        assert(sep('='));
        let s2 = s1.skip(1);
        assert(s2 =~= seq![' '] + nick);
        assert(s2[0] == ' ');
        let s3 = s2.skip(1);
        assert(s3 =~= nick);
        crate::fields::lemma_split_on_free(nick, sep);
        assert(ip =~= Seq::<char>::empty());
        assert(split_on(s, sep) == seq![Seq::<char>::empty()] + split_on(s1, sep));
        assert(split_on(s1, sep) == seq![Seq::<char>::empty()] + split_on(s2, sep));
        assert(split_on(s2, sep) == seq![Seq::<char>::empty()] + split_on(s3, sep));
        assert(split_on(s3, sep) == seq![nick]);
        assert(split_on(s, sep) =~~= seq![
            ip,
            Seq::<char>::empty(),
            Seq::<char>::empty(),
            nick,
        ]);
    } else {
        assert(s[0] == ip[0]);
        assert(!sep(s[0]));
        assert(forall|i: int| 0 <= i < ip.skip(1).len() ==> ip.skip(1)[i] == ip[i + 1]);
        lemma_line_split(ip.skip(1), nick);
        assert(s.skip(1) =~= ip.skip(1) + seq![' ', '=', ' '] + nick);
        let r = split_on(s.skip(1), sep);
        assert(r == seq![ip.skip(1), Seq::<char>::empty(), Seq::<char>::empty(), nick]);
        assert(split_on(s, sep) == seq![seq![s[0]] + r[0]] + r.skip(1));
        assert(seq![s[0]] + ip.skip(1) =~= ip);
        assert(r.skip(1) =~= seq![Seq::<char>::empty(), Seq::<char>::empty(), nick]);
        assert(split_on(s, sep) =~~= seq![
            ip,
            Seq::<char>::empty(),
            Seq::<char>::empty(),
            nick,
        ]);
    }
}

/// Parsing a rendered entry line yields the entry back: the save/load
/// round trip of the registry file, entry by entry, for addresses and
/// nicknames free of the separators. A nickname holding an equals sign
/// or whitespace cannot be stored faithfully in this format; the loader
/// treats such a line as corruption.
pub proof fn lemma_nick_line_round_trip(ip: Seq<char>, nick: Seq<char>)
    requires
        ip.len() > 0,
        nick.len() > 0,
        forall|i: int| 0 <= i < ip.len() ==> !sep_kind_pred(SepKind::Assign)(#[trigger] ip[i]),
        forall|i: int| 0 <= i < nick.len() ==> !sep_kind_pred(SepKind::Assign)(#[trigger] nick[i]),
    ensures
        spec_parse_nick_line(ip + seq![' ', '=', ' '] + nick) == Some((ip, nick)),
{
    let sep = sep_kind_pred(SepKind::Assign);
    let s = ip + seq![' ', '=', ' '] + nick;
    assert(count_eq(s) == 1) by {
        lemma_count_eq_concat(ip + seq![' ', '=', ' '], nick);
        lemma_count_eq_concat(ip, seq![' ', '=', ' ']);
        assert(forall|i: int| 0 <= i < ip.len() ==> (#[trigger] ip[i]) != '=');
        lemma_count_eq_zero(ip);
        assert(forall|i: int| 0 <= i < nick.len() ==> (#[trigger] nick[i]) != '=');
        lemma_count_eq_zero(nick);
        let mid = seq![' ', '=', ' '];
        reveal_with_fuel(count_eq, 5);
        assert(mid.drop_last() =~= seq![' ', '=']);
        assert(mid.drop_last().drop_last() =~= seq![' ']);
        assert(mid.drop_last().drop_last().drop_last() =~= Seq::<char>::empty());
        assert(count_eq(mid) == 1);
    }
    lemma_line_split(ip, nick);
    let pieces = seq![ip, Seq::<char>::empty(), Seq::<char>::empty(), nick];
    assert(nonempty_of(split_on(s, sep)) == seq![ip, nick]) by {
        reveal_with_fuel(nonempty_of, 6);
        assert(pieces.drop_last() =~= seq![ip, Seq::<char>::empty(), Seq::<char>::empty()]);
        assert(pieces.drop_last().drop_last() =~= seq![ip, Seq::<char>::empty()]);
        assert(pieces.drop_last().drop_last().drop_last() =~= seq![ip]);
        assert(seq![ip].drop_last() =~= Seq::<Seq<char>>::empty());
        assert(nonempty_of(pieces) =~= seq![ip, nick]);
    }
}

/// Manages the nickname registry.
pub struct NickManager {
    entries: Vec<(String, String)>,
}

impl NickManager {
    /// The entries as plain values.
    pub closed spec fn entries_view(&self) -> Seq<(Seq<char>, Seq<char>)> {
        self.entries@.map_values(|e: (String, String)| (e.0@, e.1@))
    }

    /// Addresses are unique.
    pub closed spec fn wf(&self) -> bool {
        unique_keys(self.entries_view())
    }

    /// The nickname stored for an address, if any.
    pub closed spec fn nick_of(&self, ip: Seq<char>) -> Option<Seq<char>> {
        assoc_get(self.entries_view(), ip)
    }

    /// Creates an empty registry; entries are loaded line by line.
    pub fn new() -> (m: NickManager)
        ensures
            m.wf(),
            forall|ip: Seq<char>| m.nick_of(ip) is None,
            m.entries_view() == Seq::<(Seq<char>, Seq<char>)>::empty(),
    {
        let m = NickManager { entries: Vec::new() };
        proof {
            assert(m.entries_view() =~= Seq::<(Seq<char>, Seq<char>)>::empty());
        }
        m
    }

    /// Find the index of the entry for an address.
    fn find(&self, ip: &str) -> (r: Option<usize>)
        ensures
            match r {
                Some(i) => i < self.entries_view().len() && self.entries_view()[i as int].0
                    == ip@,
                None => forall|i: int|
                    0 <= i < self.entries_view().len() ==> (#[trigger] self.entries_view()[i]).0
                        != ip@,
            },
    {
        let mut i: usize = 0;
        while i < self.entries.len()
            invariant
                0 <= i <= self.entries@.len(),
                forall|j: int|
                    0 <= j < i ==> (#[trigger] self.entries_view()[j]).0 != ip@,
            decreases self.entries@.len() - i,
        {
            proof {
                assert(self.entries_view()[i as int].0 == self.entries@[i as int].0@);
            }
            if self.entries[i].0 == ip.to_owned() {
                return Some(i);
            }
            i += 1;
        }
        None
    }

    /// Get the nickname associated with an IP address.
    pub fn get(&self, ip: &str) -> (r: Option<String>)
        requires
            self.wf(),
        ensures
            match r {
                Some(n) => self.nick_of(ip@) == Some(n@),
                None => self.nick_of(ip@) is None,
            },
    {
        match self.find(ip) {
            Some(i) => {
                proof {
                    lemma_assoc_get_at(self.entries_view(), i as int);
                    assert(self.entries_view()[i as int].1 == self.entries@[i as int].1@);
                }
                Some(self.entries[i].1.clone())
            },
            None => {
                proof {
                    lemma_assoc_get_absent(self.entries_view(), ip@);
                }
                None
            },
        }
    }

    /// Set the nickname for an IP address, inserting or overwriting.
    pub fn set(&mut self, ip: &str, nick: &str)
        requires
            old(self).wf(),
        ensures
            final(self).wf(),
            forall|ip2: Seq<char>| #[trigger]
                final(self).nick_of(ip2) == if ip2 == ip@ {
                    Some(nick@)
                } else {
                    old(self).nick_of(ip2)
                },
    {
        let ghost pres = self.entries_view();
        match self.find(ip) {
            Some(i) => {
                self.entries[i] = (ip.to_owned(), nick.to_owned());
                proof {
                    assert(self.entries_view() =~= pres.update(i as int, (pres[i as int].0, nick@)));
                    assert forall|ip2: Seq<char>| true implies #[trigger] self.nick_of(ip2) == if ip2
                        == ip@ {
                        Some(nick@)
                    } else {
                        old(self).nick_of(ip2)
                    } by {
                        lemma_assoc_get_update(pres, i as int, nick@, ip2);
                    }
                    assert(unique_keys(self.entries_view())) by {
                        assert(forall|a: int|
                            0 <= a < self.entries_view().len() ==> (
                            #[trigger] self.entries_view()[a]).0 == pres[a].0);
                    }
                }
            },
            None => {
                self.entries.push((ip.to_owned(), nick.to_owned()));
                proof {
                    assert(self.entries_view() =~= pres.push((ip@, nick@)));
                    assert forall|ip2: Seq<char>| true implies #[trigger] self.nick_of(ip2) == if ip2
                        == ip@ {
                        Some(nick@)
                    } else {
                        old(self).nick_of(ip2)
                    } by {
                        lemma_assoc_get_push(pres, ip@, nick@, ip2);
                    }
                    assert(unique_keys(self.entries_view())) by {
                        assert(forall|a: int|
                            0 <= a < pres.len() ==> self.entries_view()[a] == pres[a]);
                        assert(self.entries_view()[pres.len() as int].0 == ip@);
                    }
                }
            },
        }
    }

    /// Render the whole registry in its file format, one
    /// `IP = NICK` line per entry.
    pub fn render(&self) -> (r: String)
        ensures
            r@ == render_lines(self.entries_view()),
    {
        let mut out = String::new();
        let mut i: usize = 0;
        proof {
            assert(self.entries_view().take(0) =~= Seq::<(Seq<char>, Seq<char>)>::empty());
            assert(out@ =~= render_lines(self.entries_view().take(0)));
        }
        while i < self.entries.len()
            invariant
                0 <= i <= self.entries@.len(),
                out@ == render_lines(self.entries_view().take(i as int)),
            decreases self.entries@.len() - i,
        {
            let ghost ev = self.entries_view();
            out.append(self.entries[i].0.as_str());
            out.append(" = ");
            out.append(self.entries[i].1.as_str());
            out.append("\n");
            proof {
                reveal_strlit(" = ");
                reveal_strlit("\n");
                assert(" = "@ =~= seq![' ', '=', ' ']);
                assert("\n"@ =~= seq!['\n']);
                assert(ev.take(i as int + 1).drop_last() =~= ev.take(i as int));
                assert(ev.take(i as int + 1).last() == ev[i as int]);
                assert(ev[i as int].0 == self.entries@[i as int].0@);
                assert(ev[i as int].1 == self.entries@[i as int].1@);
                assert(out@ =~= render_lines(ev.take(i as int + 1)));
            }
            i += 1;
        }
        proof {
            assert(self.entries_view().take(self.entries@.len() as int) =~= self.entries_view());
        }
        out
    }
}

/// Parse one line of the registry file. Yields the address and nickname,
/// or nothing when the line is malformed (which is fatal to the caller
/// at startup). This checks the line's shape; that the first token is a
/// well-formed IP address is checked by the loader against the
/// platform's address parser, which cannot stand in the library.
pub fn parse_line(line: &str) -> (r: Option<(String, String)>)
    ensures
        match r {
            Some(e) => spec_parse_nick_line(line@) == Some((e.0@, e.1@)),
            None => spec_parse_nick_line(line@) is None,
        },
{
    let n = line.unicode_len();
    let mut eqs: usize = 0;
    let mut i: usize = 0;
    proof {
        assert(line@.take(0) =~= Seq::<char>::empty());
    }
    while i < n
        invariant
            0 <= i <= n,
            n == line@.len(),
            0 <= eqs <= i,
            eqs == count_eq(line@.take(i as int)),
        decreases n - i,
    {
        proof {
            assert(line@.take(i as int + 1).drop_last() =~= line@.take(i as int));
            assert(line@.take(i as int + 1).last() == line@[i as int]);
        }
        if line.get_char(i) == '=' {
            eqs += 1;
        }
        i += 1;
    }
    proof {
        assert(line@.take(n as int) =~= line@);
    }
    if eqs != 1 {
        return None;
    }
    let pieces = split_kind(line, SepKind::Assign);
    let toks = crate::fields::keep_nonempty(&pieces);
    proof {
        assert(views_of(toks@) == nonempty_of(split_on(line@, sep_kind_pred(SepKind::Assign))));
    }
    if toks.len() != 2 {
        return None;
    }
    proof {
        assert(toks@[0]@ == views_of(toks@)[0]);
        assert(toks@[1]@ == views_of(toks@)[1]);
    }
    Some((toks[0].clone(), toks[1].clone()))
}

} // verus!
