//! Splitting wire records into comma-separated fields and joining fields
//! back into records, with the round-trip proof that joining separator-free
//! fields and splitting again yields the fields unchanged.

use vstd::prelude::*;

verus! {

/// A field separator on the wire: records are split on commas and newlines.
pub open spec fn is_sep(c: char) -> bool {
    c == ',' || c == '\n'
}

/// `s` contains no field separator.
pub open spec fn no_sep(s: Seq<char>) -> bool {
    forall|i: int| 0 <= i < s.len() ==> !is_sep(#[trigger] s[i])
}

/// Split `s` on separators. The empty string has one empty field; every
/// separator starts a new field.
pub open spec fn split_fields(s: Seq<char>) -> Seq<Seq<char>>
    decreases s.len(),
{
    if s.len() == 0 {
        seq![Seq::<char>::empty()]
    } else if is_sep(s[0]) {
        seq![Seq::<char>::empty()] + split_fields(s.skip(1))
    } else {
        let rest = split_fields(s.skip(1));
        seq![seq![s[0]] + rest[0]] + rest.skip(1)
    }
}

/// Join fields with commas.
pub open spec fn join_fields(fs: Seq<Seq<char>>) -> Seq<char>
    decreases fs.len(),
{
    if fs.len() == 0 {
        Seq::<char>::empty()
    } else if fs.len() == 1 {
        fs[0]
    } else {
        fs[0] + seq![','] + join_fields(fs.skip(1))
    }
}

/// Splitting always yields at least one field.
pub proof fn lemma_split_len(s: Seq<char>)
    ensures
        split_fields(s).len() >= 1,
    decreases s.len(),
{
    if s.len() != 0 {
        lemma_split_len(s.skip(1));
    }
}

/// A separator-free string splits into exactly itself.
pub proof fn lemma_split_no_sep(s: Seq<char>)
    requires
        no_sep(s),
    ensures
        split_fields(s) == seq![s],
    decreases s.len(),
{
    if s.len() == 0 {
        assert(split_fields(s) =~~= seq![s]);
    } else {
        assert(!is_sep(s[0]));
        assert(no_sep(s.skip(1))) by {
            assert(forall|i: int|
                0 <= i < s.skip(1).len() ==> s.skip(1)[i] == s[i + 1]);
        }
        lemma_split_no_sep(s.skip(1));
        assert(seq![s[0]] + s.skip(1) =~= s);
        assert(split_fields(s) =~~= seq![s]);
    }
}

/// Joining separator-free fields and splitting again yields the fields.
pub proof fn lemma_split_join(fs: Seq<Seq<char>>)
    requires
        fs.len() >= 1,
        forall|i: int| 0 <= i < fs.len() ==> no_sep(#[trigger] fs[i]),
    ensures
        split_fields(join_fields(fs)) == fs,
    decreases fs.len(), fs[0].len(),
{
    if fs.len() == 1 {
        lemma_split_no_sep(fs[0]);
        assert(seq![fs[0]] =~~= fs);
    } else {
        let s = join_fields(fs);
        let tail_join = join_fields(fs.skip(1));
        assert(s == fs[0] + seq![','] + tail_join);
        if fs[0].len() == 0 {
            assert(s[0] == ',');
            assert(s.skip(1) =~= tail_join);
            lemma_split_join(fs.skip(1));
            assert(split_fields(s) == seq![Seq::<char>::empty()] + fs.skip(1));
            assert(split_fields(s) =~~= fs);
        } else {
            assert(s[0] == fs[0][0]);
            assert(!is_sep(s[0]));
            let fs2 = seq![fs[0].skip(1)] + fs.skip(1);
            assert(fs2[0] == fs[0].skip(1));
            assert(no_sep(fs2[0])) by {
                assert(forall|i: int|
                    0 <= i < fs[0].skip(1).len() ==> fs[0].skip(1)[i] == fs[0][i + 1]);
            }
            assert(forall|i: int| 0 <= i < fs2.len() ==> no_sep(#[trigger] fs2[i])) by {
                assert(forall|i: int|
                    1 <= i < fs2.len() ==> fs2[i] == fs[i]);
            }
            assert(fs2.skip(1) =~= fs.skip(1));
            assert(join_fields(fs2) == fs2[0] + seq![','] + join_fields(fs2.skip(1)));
            assert(join_fields(fs2) =~= s.skip(1));
            lemma_split_join(fs2);
            let rest = split_fields(s.skip(1));
            assert(rest == fs2);
            assert(split_fields(s) == seq![seq![s[0]] + rest[0]] + rest.skip(1));
            assert(seq![s[0]] + fs[0].skip(1) =~= fs[0]);
            assert(split_fields(s) =~~= fs);
        }
    }
}

/// Appending one more field to a join adds a comma and the field.
pub proof fn lemma_join_push(fs: Seq<Seq<char>>, f: Seq<char>)
    requires
        fs.len() >= 1,
    ensures
        join_fields(fs.push(f)) == join_fields(fs) + seq![','] + f,
    decreases fs.len(),
{
    if fs.len() == 1 {
        let w = fs.push(f);
        assert(w.len() == 2);
        assert(w[0] == fs[0]);
        assert(w.skip(1) =~= seq![f]);
        assert(join_fields(w.skip(1)) == f);
        assert(join_fields(w) == w[0] + seq![','] + join_fields(w.skip(1)));
    } else {
        assert(fs.push(f).skip(1) =~= fs.skip(1).push(f));
        lemma_join_push(fs.skip(1), f);
        assert(join_fields(fs.push(f)) == fs[0] + seq![','] + (join_fields(fs.skip(1)) + seq![',']
            + f));
        assert(fs[0] + seq![','] + (join_fields(fs.skip(1)) + seq![','] + f) =~= (fs[0] + seq![',']
            + join_fields(fs.skip(1))) + seq![','] + f);
    }
}

/// Split `s` on newlines alone; fields may contain commas.
pub open spec fn split_nl(s: Seq<char>) -> Seq<Seq<char>>
    decreases s.len(),
{
    if s.len() == 0 {
        seq![Seq::<char>::empty()]
    } else if s[0] == '\n' {
        seq![Seq::<char>::empty()] + split_nl(s.skip(1))
    } else {
        let rest = split_nl(s.skip(1));
        seq![seq![s[0]] + rest[0]] + rest.skip(1)
    }
}

/// Splitting on newlines always yields at least one piece.
pub proof fn lemma_split_nl_len(s: Seq<char>)
    ensures
        split_nl(s).len() >= 1,
    decreases s.len(),
{
    if s.len() != 0 {
        lemma_split_nl_len(s.skip(1));
    }
}

/// The newline-terminated records of a buffer: split on newlines, with a
/// final piece left by a trailing newline dropped. A record cut off at the
/// end of the buffer is still a record.
pub open spec fn split_records_spec(s: Seq<char>) -> Seq<Seq<char>> {
    let ps = split_nl(s);
    if ps.last() == Seq::<char>::empty() {
        ps.drop_last()
    } else {
        ps
    }
}

/// One newline-terminated, newline-free record is one record of the
/// buffer that carries it.
pub proof fn lemma_split_records_single(rec: Seq<char>)
    requires
        forall|i: int| 0 <= i < rec.len() ==> (#[trigger] rec[i]) != '\n',
    ensures
        split_records_spec(rec + seq!['\n']) == seq![rec],
{
    lemma_split_nl_tail(rec);
    let ps = split_nl(rec + seq!['\n']);
    assert(ps.last() == Seq::<char>::empty());
    assert(ps.drop_last() =~= seq![rec]);
}

/// Splitting a newline-free piece followed by one newline yields the
/// piece and an empty remainder.
proof fn lemma_split_nl_tail(piece: Seq<char>)
    requires
        forall|i: int| 0 <= i < piece.len() ==> (#[trigger] piece[i]) != '\n',
    ensures
        split_nl(piece + seq!['\n']) == seq![piece, Seq::<char>::empty()],
    decreases piece.len(),
{
    let s = piece + seq!['\n'];
    if piece.len() == 0 {
        assert(s.len() == 1);
        assert(s[0] == '\n');
        assert(s.skip(1) =~= Seq::<char>::empty());
        assert(split_nl(Seq::<char>::empty()) == seq![Seq::<char>::empty()]);
        assert(split_nl(s) == seq![Seq::<char>::empty()] + seq![Seq::<char>::empty()]);
        assert(piece =~= Seq::<char>::empty());
        assert(split_nl(s) =~~= seq![piece, Seq::<char>::empty()]);
    } else {
        assert(s[0] == piece[0]);
        assert(s.skip(1) =~= piece.skip(1) + seq!['\n']);
        assert(forall|i: int| 0 <= i < piece.skip(1).len() ==> piece.skip(1)[i] == piece[i + 1]);
        lemma_split_nl_tail(piece.skip(1));
        let r = split_nl(s.skip(1));
        assert(r == seq![piece.skip(1), Seq::<char>::empty()]);
        assert(seq![s[0]] + piece.skip(1) =~= piece);
        assert(r.skip(1) =~= seq![Seq::<char>::empty()]);
        assert(split_nl(s) =~~= seq![piece, Seq::<char>::empty()]);
    }
}

/// The views of a vector of owned strings.
pub open spec fn views_of(v: Seq<String>) -> Seq<Seq<char>> {
    v.map_values(|t: String| t@)
}

/// Split a record into its fields.
pub fn split_str(s: &str) -> (r: Vec<String>)
    ensures
        views_of(r@) == split_fields(s@),
        r@.len() >= 1,
{
    let n = s.unicode_len();
    let mut fields: Vec<String> = Vec::new();
    let mut cur = String::new();
    let mut i: usize = 0;
    proof {
        lemma_split_len(s@);
        assert(s@.skip(0) =~= s@);
        assert(views_of(fields@) =~= Seq::<Seq<char>>::empty());
        assert(cur@ + split_fields(s@)[0] =~= split_fields(s@)[0]);
    }
    while i < n
        invariant
            0 <= i <= n,
            n == s@.len() <= usize::MAX,
            split_fields(s@.skip(i as int)).len() >= 1,
            split_fields(s@) =~~= views_of(fields@) + seq![
                cur@ + split_fields(s@.skip(i as int))[0],
            ] + split_fields(s@.skip(i as int)).skip(1),
        decreases n - i,
    {
        let ghost old_fields = fields@;
        let ghost old_cur = cur@;
        let ghost rest = s@.skip(i as int);
        proof {
            assert(rest.len() > 0);
            assert(rest[0] == s@[i as int]);
            assert(rest.skip(1) =~= s@.skip(i as int + 1));
            lemma_split_len(s@.skip(i as int + 1));
        }
        let c = s.get_char(i);
        if c == ',' || c == '\n' {
            proof {
                assert(is_sep(rest[0]));
                assert(split_fields(rest) == seq![Seq::<char>::empty()] + split_fields(
                    s@.skip(i as int + 1),
                ));
                assert(split_fields(rest)[0] =~= Seq::<char>::empty());
                assert(old_cur + split_fields(rest)[0] =~= old_cur);
                assert(split_fields(rest).skip(1) =~= split_fields(s@.skip(i as int + 1)));
            }
            fields.push(cur);
            cur = String::new();
            proof {
                assert(views_of(fields@) =~= views_of(old_fields).push(old_cur));
                let next = split_fields(s@.skip(i as int + 1));
                assert(split_fields(s@) =~~= views_of(fields@) + seq![cur@ + next[0]] + next.skip(
                    1,
                ));
            }
        } else {
            let piece = s.substring_char(i, i + 1);
            cur.append(piece);
            proof {
                assert(piece@ =~= seq![rest[0]]);
                let next = split_fields(s@.skip(i as int + 1));
                assert(split_fields(rest) == seq![seq![rest[0]] + next[0]] + next.skip(1));
                assert(split_fields(rest)[0] == seq![rest[0]] + next[0]);
                assert(old_cur + (seq![rest[0]] + next[0]) =~= cur@ + next[0]);
                assert(split_fields(rest).skip(1) =~= next.skip(1));
                assert(split_fields(s@) =~~= views_of(fields@) + seq![cur@ + next[0]] + next.skip(
                    1,
                ));
            }
        }
        i += 1;
    }
    proof {
        assert(s@.skip(n as int) =~= Seq::<char>::empty());
        assert(split_fields(s@.skip(n as int)) == seq![Seq::<char>::empty()]);
        assert(split_fields(s@.skip(n as int)).skip(1) =~= Seq::<Seq<char>>::empty());
    }
    let ghost old_fields = fields@;
    let ghost old_cur = cur@;
    fields.push(cur);
    proof {
        assert(old_cur + Seq::<char>::empty() =~= old_cur);
        assert(views_of(fields@) =~= views_of(old_fields).push(old_cur));
        assert(split_fields(s@) =~~= views_of(fields@));
    }
    fields
}

/// Split a read buffer into its newline-terminated records.
pub fn split_records(s: &str) -> (r: Vec<String>)
    ensures
        views_of(r@) == split_records_spec(s@),
{
    let n = s.unicode_len();
    let mut pieces: Vec<String> = Vec::new();
    let mut cur = String::new();
    let mut i: usize = 0;
    proof {
        lemma_split_nl_len(s@);
        assert(s@.skip(0) =~= s@);
        assert(views_of(pieces@) =~= Seq::<Seq<char>>::empty());
        assert(cur@ + split_nl(s@)[0] =~= split_nl(s@)[0]);
    }
    while i < n
        invariant
            0 <= i <= n,
            n == s@.len() <= usize::MAX,
            split_nl(s@.skip(i as int)).len() >= 1,
            split_nl(s@) =~~= views_of(pieces@) + seq![
                cur@ + split_nl(s@.skip(i as int))[0],
            ] + split_nl(s@.skip(i as int)).skip(1),
        decreases n - i,
    {
        let ghost old_pieces = pieces@;
        let ghost old_cur = cur@;
        let ghost rest = s@.skip(i as int);
        proof {
            assert(rest.len() > 0);
            assert(rest[0] == s@[i as int]);
            assert(rest.skip(1) =~= s@.skip(i as int + 1));
            lemma_split_nl_len(s@.skip(i as int + 1));
        }
        let c = s.get_char(i);
        if c == '\n' {
            proof {
                assert(split_nl(rest) == seq![Seq::<char>::empty()] + split_nl(
                    s@.skip(i as int + 1),
                ));
                assert(split_nl(rest)[0] =~= Seq::<char>::empty());
                assert(old_cur + split_nl(rest)[0] =~= old_cur);
                assert(split_nl(rest).skip(1) =~= split_nl(s@.skip(i as int + 1)));
            }
            pieces.push(cur);
            cur = String::new();
            proof {
                assert(views_of(pieces@) =~= views_of(old_pieces).push(old_cur));
                let next = split_nl(s@.skip(i as int + 1));
                assert(split_nl(s@) =~~= views_of(pieces@) + seq![cur@ + next[0]] + next.skip(1));
            }
        } else {
            let piece = s.substring_char(i, i + 1);
            cur.append(piece);
            proof {
                assert(piece@ =~= seq![rest[0]]);
                let next = split_nl(s@.skip(i as int + 1));
                assert(split_nl(rest) == seq![seq![rest[0]] + next[0]] + next.skip(1));
                assert(split_nl(rest)[0] == seq![rest[0]] + next[0]);
                assert(old_cur + (seq![rest[0]] + next[0]) =~= cur@ + next[0]);
                assert(split_nl(rest).skip(1) =~= next.skip(1));
                assert(split_nl(s@) =~~= views_of(pieces@) + seq![cur@ + next[0]] + next.skip(1));
            }
        }
        i += 1;
    }
    proof {
        assert(s@.skip(n as int) =~= Seq::<char>::empty());
        assert(split_nl(s@.skip(n as int)) == seq![Seq::<char>::empty()]);
        assert(split_nl(s@.skip(n as int)).skip(1) =~= Seq::<Seq<char>>::empty());
        assert(split_nl(s@) =~~= views_of(pieces@).push(cur@));
        assert(split_nl(s@).last() == cur@);
        assert(split_nl(s@).drop_last() =~= views_of(pieces@));
    }
    if !cur.as_str().is_empty() {
        let ghost old_pieces = pieces@;
        let ghost old_cur = cur@;
        pieces.push(cur);
        proof {
            assert(views_of(pieces@) =~= views_of(old_pieces).push(old_cur));
        }
    }
    pieces
}

/// Split on an arbitrary separator predicate, with the same shape as
/// `split_fields`.
pub open spec fn split_on(s: Seq<char>, sep: spec_fn(char) -> bool) -> Seq<Seq<char>>
    decreases s.len(),
{
    if s.len() == 0 {
        seq![Seq::<char>::empty()]
    } else if sep(s[0]) {
        seq![Seq::<char>::empty()] + split_on(s.skip(1), sep)
    } else {
        let rest = split_on(s.skip(1), sep);
        seq![seq![s[0]] + rest[0]] + rest.skip(1)
    }
}

/// Splitting on any separator yields at least one piece.
pub proof fn lemma_split_on_len(s: Seq<char>, sep: spec_fn(char) -> bool)
    ensures
        split_on(s, sep).len() >= 1,
    decreases s.len(),
{
    if s.len() != 0 {
        lemma_split_on_len(s.skip(1), sep);
    }
}

/// A piece free of the given separator splits into exactly itself.
pub proof fn lemma_split_on_free(s: Seq<char>, sep: spec_fn(char) -> bool)
    requires
        forall|i: int| 0 <= i < s.len() ==> !sep(#[trigger] s[i]),
    ensures
        split_on(s, sep) == seq![s],
    decreases s.len(),
{
    if s.len() == 0 {
        assert(split_on(s, sep) =~~= seq![s]);
    } else {
        assert(forall|i: int| 0 <= i < s.skip(1).len() ==> s.skip(1)[i] == s[i + 1]);
        lemma_split_on_free(s.skip(1), sep);
        assert(seq![s[0]] + s.skip(1) =~= s);
        assert(split_on(s, sep) =~~= seq![s]);
    }
}

/// The separator families used outside the record codec.
#[derive(Clone, Copy, Debug, PartialEq, Eq, Structural)]
pub enum SepKind {
    /// A single space, as chat commands are tokenised.
    Space,
    /// An equals sign or ASCII whitespace, as nickname files are split.
    Assign,
}

/// The predicate a separator kind stands for.
pub open spec fn sep_kind_pred(k: SepKind) -> spec_fn(char) -> bool {
    match k {
        SepKind::Space => |c: char| c == ' ',
        SepKind::Assign => |c: char| c == '=' || c == ' ' || (9 <= c as u32 <= 13),
    }
}

/// Test one character against a separator kind.
fn is_sep_kind(k: SepKind, c: char) -> (r: bool)
    ensures
        r == sep_kind_pred(k)(c),
{
    match k {
        SepKind::Space => c == ' ',
        SepKind::Assign => {
            let cv = c as u32;
            c == '=' || c == ' ' || (9 <= cv && cv <= 13)
        },
    }
}

/// Split a string on one of the separator kinds.
pub fn split_kind(s: &str, k: SepKind) -> (r: Vec<String>)
    ensures
        views_of(r@) == split_on(s@, sep_kind_pred(k)),
        r@.len() >= 1,
{
    let ghost sep = sep_kind_pred(k);
    let n = s.unicode_len();
    let mut pieces: Vec<String> = Vec::new();
    let mut cur = String::new();
    let mut i: usize = 0;
    proof {
        lemma_split_on_len(s@, sep);
        assert(s@.skip(0) =~= s@);
        assert(views_of(pieces@) =~= Seq::<Seq<char>>::empty());
        assert(cur@ + split_on(s@, sep)[0] =~= split_on(s@, sep)[0]);
    }
    while i < n
        invariant
            0 <= i <= n,
            n == s@.len() <= usize::MAX,
            sep == sep_kind_pred(k),
            split_on(s@.skip(i as int), sep).len() >= 1,
            split_on(s@, sep) =~~= views_of(pieces@) + seq![
                cur@ + split_on(s@.skip(i as int), sep)[0],
            ] + split_on(s@.skip(i as int), sep).skip(1),
        decreases n - i,
    {
        let ghost old_pieces = pieces@;
        let ghost old_cur = cur@;
        let ghost rest = s@.skip(i as int);
        proof {
            assert(rest.len() > 0);
            assert(rest[0] == s@[i as int]);
            assert(rest.skip(1) =~= s@.skip(i as int + 1));
            lemma_split_on_len(s@.skip(i as int + 1), sep);
        }
        let c = s.get_char(i);
        if is_sep_kind(k, c) {
            proof {
                assert(sep(rest[0]));
                assert(split_on(rest, sep) == seq![Seq::<char>::empty()] + split_on(
                    s@.skip(i as int + 1),
                    sep,
                ));
                assert(split_on(rest, sep)[0] =~= Seq::<char>::empty());
                assert(old_cur + split_on(rest, sep)[0] =~= old_cur);
                assert(split_on(rest, sep).skip(1) =~= split_on(s@.skip(i as int + 1), sep));
            }
            pieces.push(cur);
            cur = String::new();
            proof {
                assert(views_of(pieces@) =~= views_of(old_pieces).push(old_cur));
                let next = split_on(s@.skip(i as int + 1), sep);
                assert(split_on(s@, sep) =~~= views_of(pieces@) + seq![cur@ + next[0]] + next.skip(
                    1,
                ));
            }
        } else {
            let piece = s.substring_char(i, i + 1);
            cur.append(piece);
            proof {
                assert(!sep(rest[0]));
                assert(piece@ =~= seq![rest[0]]);
                let next = split_on(s@.skip(i as int + 1), sep);
                assert(split_on(rest, sep) == seq![seq![rest[0]] + next[0]] + next.skip(1));
                assert(split_on(rest, sep)[0] == seq![rest[0]] + next[0]);
                assert(old_cur + (seq![rest[0]] + next[0]) =~= cur@ + next[0]);
                assert(split_on(rest, sep).skip(1) =~= next.skip(1));
                assert(split_on(s@, sep) =~~= views_of(pieces@) + seq![cur@ + next[0]] + next.skip(
                    1,
                ));
            }
        }
        i += 1;
    }
    proof {
        assert(s@.skip(n as int) =~= Seq::<char>::empty());
        assert(split_on(s@.skip(n as int), sep) == seq![Seq::<char>::empty()]);
        assert(split_on(s@.skip(n as int), sep).skip(1) =~= Seq::<Seq<char>>::empty());
    }
    let ghost old_pieces = pieces@;
    let ghost old_cur = cur@;
    pieces.push(cur);
    proof {
        assert(old_cur + Seq::<char>::empty() =~= old_cur);
        assert(views_of(pieces@) =~= views_of(old_pieces).push(old_cur));
        assert(split_on(s@, sep) =~~= views_of(pieces@));
    }
    pieces
}

/// The nonempty strings of a sequence, in order.
pub open spec fn nonempty_of(s: Seq<Seq<char>>) -> Seq<Seq<char>>
    decreases s.len(),
{
    if s.len() == 0 {
        Seq::<Seq<char>>::empty()
    } else if s.last().len() > 0 {
        nonempty_of(s.drop_last()).push(s.last())
    } else {
        nonempty_of(s.drop_last())
    }
}

/// Keep the nonempty strings, in order.
pub fn keep_nonempty(v: &Vec<String>) -> (r: Vec<String>)
    ensures
        views_of(r@) == nonempty_of(views_of(v@)),
{
    let mut out: Vec<String> = Vec::new();
    let mut i: usize = 0;
    proof {
        assert(views_of(v@).take(0) =~= Seq::<Seq<char>>::empty());
        assert(views_of(out@) =~= nonempty_of(views_of(v@).take(0)));
    }
    while i < v.len()
        invariant
            0 <= i <= v@.len(),
            views_of(out@) == nonempty_of(views_of(v@).take(i as int)),
        decreases v@.len() - i,
    {
        let ghost before = views_of(out@);
        proof {
            assert(views_of(v@).take(i as int + 1).drop_last() =~= views_of(v@).take(i as int));
            assert(views_of(v@).take(i as int + 1).last() == v@[i as int]@);
        }
        if !v[i].as_str().is_empty() {
            out.push(v[i].clone());
            proof {
                assert(views_of(out@) =~= before.push(v@[i as int]@));
            }
        }
        i += 1;
    }
    proof {
        assert(views_of(v@).take(v@.len() as int) =~= views_of(v@));
    }
    out
}

/// Join owned fields with commas.
pub fn join_strs(v: &Vec<String>) -> (r: String)
    requires
        v@.len() >= 1,
    ensures
        r@ == join_fields(views_of(v@)),
{
    let mut s = String::new();
    s.append(v[0].as_str());
    proof {
        assert(s@ =~= v@[0]@);
        assert(views_of(v@.take(1)) =~= seq![v@[0]@]);
    }
    let mut i: usize = 1;
    while i < v.len()
        invariant
            1 <= i <= v@.len(),
            s@ == join_fields(views_of(v@.take(i as int))),
        decreases v@.len() - i,
    {
        let ghost before = views_of(v@.take(i as int));
        s.append(",");
        s.append(v[i].as_str());
        proof {
            reveal_strlit(",");
            assert(","@ =~= seq![',']);
            lemma_join_push(before, v@[i as int]@);
            assert(views_of(v@.take(i as int + 1)) =~= before.push(v@[i as int]@));
            assert(s@ =~= join_fields(before) + seq![','] + v@[i as int]@);
        }
        i += 1;
    }
    proof {
        assert(v@.take(v@.len() as int) =~= v@);
    }
    s
}

} // verus!
