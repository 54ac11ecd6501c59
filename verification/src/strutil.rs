//! String helpers: lexicographic comparison by character code points (the
//! order archive filenames are saved in), substring search, case folding,
//! and building a `String` from ASCII bytes.
use vstd::prelude::*;

verus! {

/// Strict lexicographic order on character sequences by code point. For the
/// ASCII filenames an archive holds, this is the byte order of the strings.
pub open spec fn spec_chars_lt(a: Seq<char>, b: Seq<char>) -> bool
    decreases a.len(),
{
    if b.len() == 0 {
        false
    } else if a.len() == 0 {
        true
    } else if a[0] != b[0] {
        (a[0] as int) < (b[0] as int)
    } else {
        spec_chars_lt(a.drop_first(), b.drop_first())
    }
}

/// Strict lexicographic comparison of two strings by character code points.
pub fn str_lt(a: &str, b: &str) -> (r: bool)
    ensures
        r == spec_chars_lt(a@, b@),
    decreases a@.len(),
{
    let an = a.unicode_len();
    let bn = b.unicode_len();
    let mut i: usize = 0;
    proof {
        assert(a@.subrange(0, an as int) =~= a@);
        assert(b@.subrange(0, bn as int) =~= b@);
    }
    loop
        invariant
            0 <= i <= an,
            i <= bn,
            an == a@.len(),
            bn == b@.len(),
            spec_chars_lt(a@, b@) == spec_chars_lt(
                a@.subrange(i as int, an as int),
                b@.subrange(i as int, bn as int),
            ),
        decreases an - i,
    {
        if i >= bn {
            proof {
                assert(b@.subrange(i as int, bn as int).len() == 0);
            }
            return false;
        }
        if i >= an {
            proof {
                assert(a@.subrange(i as int, an as int).len() == 0);
                assert(b@.subrange(i as int, bn as int).len() > 0);
            }
            return true;
        }
        let ca = a.get_char(i);
        let cb = b.get_char(i);
        proof {
            let ra = a@.subrange(i as int, an as int);
            let rb = b@.subrange(i as int, bn as int);
            assert(ra[0] == a@[i as int]);
            assert(rb[0] == b@[i as int]);
            assert(ra.drop_first() =~= a@.subrange(i + 1, an as int));
            assert(rb.drop_first() =~= b@.subrange(i + 1, bn as int));
        }
        if ca as u32 != cb as u32 {
            proof {
                assert(ca as u32 == ca as int && cb as u32 == cb as int);
            }
            return (ca as u32) < (cb as u32);
        }
        proof {
            assert(ca as u32 == ca as int && cb as u32 == cb as int);
            assert(ca == cb);
        }
        i = i + 1;
    }
}

/// Equality of two strings, decided by their character sequences.
pub fn str_eq(a: &str, b: &str) -> (r: bool)
    ensures
        r == (a@ == b@),
{
    let an = a.unicode_len();
    let bn = b.unicode_len();
    if an != bn {
        proof {
            assert(a@ != b@);
        }
        return false;
    }
    let mut i: usize = 0;
    while i < an
        invariant
            0 <= i <= an,
            an == a@.len(),
            an == b@.len(),
            forall|j: int| 0 <= j < i ==> a@[j] == b@[j],
        decreases an - i,
    {
        let ca = a.get_char(i);
        let cb = b.get_char(i);
        if ca as u32 != cb as u32 {
            proof {
                assert(a@[i as int] != b@[i as int]);
            }
            return false;
        }
        proof {
            assert(ca == cb);
        }
        i = i + 1;
    }
    proof {
        assert(a@ =~= b@);
    }
    true
}

/// Whether `needle` occurs in `hay` starting at position `at`.
pub open spec fn spec_occurs_at(hay: Seq<char>, needle: Seq<char>, at: int) -> bool {
    0 <= at && at + needle.len() <= hay.len() && hay.subrange(at, at + needle.len()) == needle
}

/// Whether `needle` occurs anywhere in `hay`.
pub open spec fn spec_contains_seq(hay: Seq<char>, needle: Seq<char>) -> bool {
    exists|at: int| spec_occurs_at(hay, needle, at)
}

/// Substring search: whether `needle` occurs in `hay`.
pub fn str_contains(hay: &str, needle: &str) -> (r: bool)
    ensures
        r == spec_contains_seq(hay@, needle@),
{
    let hn = hay.unicode_len();
    let nn = needle.unicode_len();
    if nn > hn {
        proof {
            assert(forall|at: int| !spec_occurs_at(hay@, needle@, at));
        }
        return false;
    }
    if nn == 0 {
        proof {
            assert(hay@.subrange(0, 0) =~= needle@);
            assert(spec_occurs_at(hay@, needle@, 0));
        }
        return true;
    }
    let mut at: usize = 0;
    while at <= hn - nn
        invariant
            0 <= at,
            1 <= nn <= hn,
            at <= hn - nn + 1,
            hn == hay@.len(),
            nn == needle@.len(),
            forall|p: int| 0 <= p < at ==> !spec_occurs_at(hay@, needle@, p),
        decreases hn - at,
    {
        let mut k: usize = 0;
        let mut all_eq: bool = true;
        while k < nn
            invariant
                0 <= k <= nn,
                at + nn <= hn,
                hn == hay@.len(),
                nn == needle@.len(),
                all_eq == (forall|j: int|
                    0 <= j < k ==> hay@[at + j] == needle@[j]),
            decreases nn - k,
        {
            let hc = hay.get_char(at + k);
            let nc = needle.get_char(k);
            if hc as u32 != nc as u32 {
                proof {
                    assert(hay@[at + k] != needle@[k as int]);
                }
                all_eq = false;
            } else {
                proof {
                    assert(hc == nc);
                }
                proof {
                    if all_eq {
                        assert(forall|j: int| 0 <= j < k + 1 ==> hay@[at + j] == needle@[j]);
                    }
                }
            }
            k = k + 1;
        }
        if all_eq {
            proof {
                assert(hay@.subrange(at as int, at + nn) =~= needle@);
                assert(spec_occurs_at(hay@, needle@, at as int));
            }
            return true;
        }
        proof {
            assert(!spec_occurs_at(hay@, needle@, at as int)) by {
                if hay@.subrange(at as int, at + nn) == needle@ {
                    assert(forall|j: int|
                        0 <= j < nn ==> hay@[at + j] == #[trigger] needle@[j]) by {
                        assert(forall|j: int|
                            0 <= j < nn ==> needle@[j] == hay@.subrange(at as int, at + nn)[j]);
                    }
                }
            }
        }
        at = at + 1;
    }
    proof {
        assert forall|p: int| !spec_occurs_at(hay@, needle@, p) by {
            if 0 <= p && p + needle@.len() <= hay@.len() {
                assert(p < at);
            }
        }
    }
    false
}

/// Exactly one of `a == b`, `a < b`, `b < a` holds (at least one here;
/// exclusivity follows from irreflexivity along the same induction).
pub proof fn lemma_chars_lt_trichotomy(a: Seq<char>, b: Seq<char>)
    ensures
        a == b || spec_chars_lt(a, b) || spec_chars_lt(b, a),
    decreases a.len(),
{
    if a.len() == 0 && b.len() == 0 {
        assert(a =~= b);
    } else if a.len() > 0 && b.len() > 0 && a[0] == b[0] {
        lemma_chars_lt_trichotomy(a.drop_first(), b.drop_first());
        if a.drop_first() == b.drop_first() {
            assert(a.drop_first().len() == a.len() - 1);
            assert(b.drop_first().len() == b.len() - 1);
            assert(a.len() == b.len());
            assert forall|i: int| 0 <= i < a.len() implies a[i] == b[i] by {
                if i > 0 {
                    assert(a[i] == a.drop_first()[i - 1]);
                    assert(b[i] == b.drop_first()[i - 1]);
                }
            }
            assert(a =~= b);
        }
    }
}

/// The order is irreflexive: no sequence is below itself.
pub proof fn lemma_chars_lt_irreflexive(a: Seq<char>)
    ensures
        !spec_chars_lt(a, a),
    decreases a.len(),
{
    if a.len() > 0 {
        lemma_chars_lt_irreflexive(a.drop_first());
    }
}

/// The order is transitive.
pub proof fn lemma_chars_lt_transitive(a: Seq<char>, b: Seq<char>, c: Seq<char>)
    requires
        spec_chars_lt(a, b),
        spec_chars_lt(b, c),
    ensures
        spec_chars_lt(a, c),
    decreases a.len(),
{
    if a.len() > 0 && b.len() > 0 && c.len() > 0 && a[0] == b[0] && b[0] == c[0] {
        lemma_chars_lt_transitive(a.drop_first(), b.drop_first(), c.drop_first());
    }
}

/// Strictly ascending name sequences, neighbor by neighbor.
pub open spec fn spec_names_sorted(s: Seq<Seq<char>>) -> bool {
    forall|i: int| 0 <= i < s.len() - 1 ==> spec_chars_lt(#[trigger] s[i], s[i + 1])
}

/// In a strictly ascending sequence, every earlier name is below every later
/// one.
pub proof fn lemma_sorted_global(s: Seq<Seq<char>>, i: int, j: int)
    requires
        spec_names_sorted(s),
        0 <= i < j < s.len(),
    ensures
        spec_chars_lt(s[i], s[j]),
    decreases j - i,
{
    if i + 1 < j {
        lemma_sorted_global(s, i + 1, j);
        lemma_chars_lt_transitive(s[i], s[i + 1], s[j]);
    }
}

/// Where a name lands when inserted into a sorted sequence: right before
/// the first strictly larger name.
pub open spec fn spec_insert_sorted(x: Seq<char>, s: Seq<Seq<char>>) -> Seq<Seq<char>>
    decreases s.len(),
{
    if s.len() == 0 {
        seq![x]
    } else if spec_chars_lt(x, s[0]) {
        seq![x] + s
    } else {
        seq![s[0]] + spec_insert_sorted(x, s.drop_first())
    }
}

/// Sorting a name sequence by repeated insertion, one name at a time from
/// the front.
pub open spec fn spec_sort_names(s: Seq<Seq<char>>) -> Seq<Seq<char>>
    decreases s.len(),
{
    if s.len() == 0 {
        Seq::<Seq<char>>::empty()
    } else {
        spec_insert_sorted(s.last(), spec_sort_names(s.drop_last()))
    }
}

/// Inserting a fresh name into a strictly sorted sequence keeps it strictly
/// sorted and adds exactly that name.
pub proof fn lemma_insert_sorted_props(x: Seq<char>, s: Seq<Seq<char>>)
    requires
        spec_names_sorted(s),
        forall|i: int| 0 <= i < s.len() ==> (#[trigger] s[i]) != x,
    ensures
        spec_names_sorted(spec_insert_sorted(x, s)),
        spec_insert_sorted(x, s).to_multiset() == s.to_multiset().insert(x),
        spec_insert_sorted(x, s).len() == s.len() + 1,
    decreases s.len(),
{
    broadcast use vstd::seq_lib::group_to_multiset_ensures;

    let r = spec_insert_sorted(x, s);
    if s.len() == 0 {
        assert(r =~= Seq::<Seq<char>>::empty().push(x));
        assert(Seq::<Seq<char>>::empty().push(x).to_multiset() =~= Seq::<
            Seq<char>,
        >::empty().to_multiset().insert(x));
        assert(s.to_multiset() =~= Seq::<Seq<char>>::empty().to_multiset());
    } else if spec_chars_lt(x, s[0]) {
        assert forall|i: int| 0 <= i < r.len() - 1 implies spec_chars_lt(
            #[trigger] r[i],
            r[i + 1],
        ) by {
            if i > 0 {
                assert(r[i] == s[i - 1] && r[i + 1] == s[i]);
            }
        }
        lemma_multiset_prepend(x, s);
    } else {
        let t = s.drop_first();
        assert(forall|i: int| 0 <= i < t.len() ==> (#[trigger] t[i]) == s[i + 1]);
        lemma_chars_lt_trichotomy(x, s[0]);
        assert(spec_chars_lt(s[0], x));
        lemma_insert_sorted_props(x, t);
        let rt = spec_insert_sorted(x, t);
        assert(r =~= seq![s[0]] + rt);
        assert forall|i: int| 0 <= i < r.len() - 1 implies spec_chars_lt(
            #[trigger] r[i],
            r[i + 1],
        ) by {
            if i == 0 {
                if t.len() == 0 {
                    assert(r[1] == x);
                } else if spec_chars_lt(x, t[0]) {
                    assert(r[1] == x);
                } else {
                    assert(r[1] == t[0]);
                    assert(spec_chars_lt(s[0], s[1]));
                }
            } else {
                assert(r[i] == rt[i - 1] && r[i + 1] == rt[i]);
            }
        }
        lemma_multiset_prepend(s[0], rt);
        lemma_multiset_prepend(s[0], t);
        assert(seq![s[0]] + t =~= s);
        assert(r.to_multiset() =~= s.to_multiset().insert(x));
    }
}

/// Prepending one element inserts it into the multiset.
proof fn lemma_multiset_prepend(x: Seq<char>, s: Seq<Seq<char>>)
    ensures
        (seq![x] + s).to_multiset() == s.to_multiset().insert(x),
    decreases s.len(),
{
    broadcast use vstd::seq_lib::group_to_multiset_ensures;

    if s.len() == 0 {
        assert(seq![x] + s =~= Seq::<Seq<char>>::empty().push(x));
    } else {
        let r = seq![x] + s;
        assert(r.drop_last() =~= seq![x] + s.drop_last());
        lemma_multiset_prepend(x, s.drop_last());
        assert(r =~= r.drop_last().push(s.last()));
        assert(s =~= s.drop_last().push(s.last()));
        assert(r.to_multiset() =~= s.to_multiset().insert(x));
    }
}

/// Sorting a duplicate-free name sequence yields a strictly ascending
/// sequence with the same names (the same multiset).
pub proof fn lemma_sort_names_props(s: Seq<Seq<char>>)
    requires
        forall|a: int, b: int| 0 <= a < b < s.len() ==> (#[trigger] s[a]) != (#[trigger] s[b]),
    ensures
        spec_names_sorted(spec_sort_names(s)),
        spec_sort_names(s).to_multiset() == s.to_multiset(),
        spec_sort_names(s).len() == s.len(),
    decreases s.len(),
{
    broadcast use vstd::seq_lib::group_to_multiset_ensures;

    if s.len() > 0 {
        let t = s.drop_last();
        let x = s.last();
        lemma_sort_names_props(t);
        let st = spec_sort_names(t);
        assert forall|i: int| 0 <= i < st.len() implies (#[trigger] st[i]) != x by {
            assert(st.to_multiset().count(st[i]) > 0);
            assert(t.to_multiset().count(st[i]) > 0);
            assert(t.contains(st[i]));
            let j = choose|j: int| 0 <= j < t.len() && t[j] == st[i];
            assert(s[j] == t[j]);
            assert(s[s.len() - 1] == x);
        }
        lemma_insert_sorted_props(x, st);
        assert(s =~= t.push(x));
        assert(s.to_multiset() =~= t.to_multiset().insert(x));
        assert(spec_sort_names(s).to_multiset() =~= s.to_multiset());
    }
}

/// Insert a name into a sorted list of names, right before the first
/// strictly larger one.
pub fn insert_sorted(x: String, v: Vec<String>) -> (r: Vec<String>)
    ensures
        names_view(r@) == spec_insert_sorted(x@, names_view(v@)),
{
    let n = v.len();
    let mut j: usize = 0;
    while j < n && !str_lt(x.as_str(), v[j].as_str())
        invariant
            0 <= j <= n,
            n == v@.len(),
            forall|k: int| 0 <= k < j ==> !spec_chars_lt(x@, names_view(v@)[k]),
        decreases n - j,
    {
        j = j + 1;
    }
    let ghost sv = names_view(v@);
    proof {
        lemma_insert_at_position(x@, sv, j as int);
    }
    let mut r = v;
    r.insert(j, x);
    proof {
        assert(names_view(r@) =~= sv.subrange(0, j as int) + seq![x@] + sv.subrange(
            j as int,
            sv.len() as int,
        ));
    }
    r
}

/// The insertion point characterizes the inserted sequence.
proof fn lemma_insert_at_position(x: Seq<char>, s: Seq<Seq<char>>, j: int)
    requires
        0 <= j <= s.len(),
        forall|k: int| 0 <= k < j ==> !spec_chars_lt(x, #[trigger] s[k]),
        j < s.len() ==> spec_chars_lt(x, s[j]),
    ensures
        spec_insert_sorted(x, s) == s.subrange(0, j) + seq![x] + s.subrange(j, s.len() as int),
    decreases s.len(),
{
    if s.len() == 0 {
        assert(spec_insert_sorted(x, s) =~= s.subrange(0, 0) + seq![x] + s.subrange(0, 0));
    } else if spec_chars_lt(x, s[0]) {
        assert(j == 0);
        assert(spec_insert_sorted(x, s) =~= s.subrange(0, 0) + seq![x] + s.subrange(
            0,
            s.len() as int,
        ));
    } else {
        assert(j >= 1);
        let t = s.drop_first();
        assert(forall|k: int| 0 <= k < j - 1 ==> !spec_chars_lt(x, #[trigger] t[k]));
        lemma_insert_at_position(x, t, j - 1);
        assert(spec_insert_sorted(x, s) =~= s.subrange(0, j) + seq![x] + s.subrange(
            j,
            s.len() as int,
        )) by {
            assert(t.subrange(0, j - 1) =~= s.subrange(1, j));
            assert(t.subrange(j - 1, t.len() as int) =~= s.subrange(j, s.len() as int));
            assert(seq![s[0]] + (s.subrange(1, j) + seq![x] + s.subrange(j, s.len() as int))
                =~= s.subrange(0, j) + seq![x] + s.subrange(j, s.len() as int));
        }
    }
}

/// View of a name list as a sequence of character sequences.
pub open spec fn names_view(v: Seq<String>) -> Seq<Seq<char>> {
    v.map_values(|s: String| s@)
}

/// Sort names into strictly ascending order by repeated insertion. The
/// result is the deterministic sorted arrangement of the same names.
pub fn sort_names(v: Vec<String>) -> (r: Vec<String>)
    ensures
        names_view(r@) == spec_sort_names(names_view(v@)),
{
    let ghost orig = names_view(v@);
    let mut rest = v;
    let mut acc: Vec<String> = Vec::new();
    let ghost mut i: int = 0;
    proof {
        assert(names_view(acc@) =~= spec_sort_names(orig.subrange(0, 0)));
        assert(names_view(rest@) =~= orig.subrange(0, orig.len() as int));
    }
    while rest.len() > 0
        invariant
            0 <= i <= orig.len(),
            names_view(rest@) == orig.subrange(i, orig.len() as int),
            rest@.len() == orig.len() - i,
            names_view(acc@) == spec_sort_names(orig.subrange(0, i)),
        decreases rest@.len(),
    {
        let ghost old_rest = rest@;
        let x = rest.remove(0);
        proof {
            assert forall|k: int|
                0 <= k < rest@.len() implies names_view(rest@)[k] == orig.subrange(
                i + 1,
                orig.len() as int,
            )[k] by {
                assert(rest@[k] == old_rest[k + 1]);
                assert(names_view(old_rest)[k + 1] == old_rest[k + 1]@);
                assert(names_view(old_rest)[k + 1] == orig[i + 1 + k]);
            }
            assert(names_view(rest@) =~= orig.subrange(i + 1, orig.len() as int));
            assert(x@ == names_view(old_rest)[0]);
            assert(x@ == orig[i]);
            assert(orig.subrange(0, i + 1).drop_last() =~= orig.subrange(0, i));
            assert(orig.subrange(0, i + 1).last() == orig[i]);
        }
        acc = insert_sorted(x, acc);
        proof {
            i = i + 1;
        }
    }
    proof {
        assert(orig.subrange(0, i) =~= orig);
    }
    acc
}

/// What `str::to_lowercase` yields: a function of the characters alone.
pub uninterp spec fn lower_of(s: Seq<char>) -> Seq<char>;

/// Relies on `str::to_lowercase`: the result depends on the characters of
/// the input alone.
#[verifier::external_body]
pub fn to_lowercase(s: &str) -> (r: String)
    ensures
        r@ == lower_of(s@),
{
    s.to_lowercase()
}

/// Relies on `String::from_utf8`: a sequence of ASCII bytes decodes to the
/// characters with the same code points (ASCII is valid UTF-8).
#[verifier::external_body]
pub fn string_from_ascii(bytes: Vec<u8>) -> (r: String)
    requires
        forall|i: int| 0 <= i < bytes@.len() ==> bytes@[i] < 128,
    ensures
        r@ == bytes@.map_values(|b: u8| b as char),
{
    String::from_utf8(bytes).unwrap_or_default()
}

} // verus!
