//! The links of an event: a mapping from displayed text to URL, ordered by the text.
//!
//! Labels are ordered as `str` orders them: by their UTF-8 bytes, lexicographically.
use vstd::prelude::*;
use vstd::utf8::{encode_utf8, encode_utf8_decode_utf8};

use super::model;

verus! {

/// `a` comes before `b` in lexicographic byte order.
pub open spec fn bytes_lt(a: Seq<u8>, b: Seq<u8>) -> bool
    decreases a.len(),
{
    if b.len() == 0 {
        false
    } else if a.len() == 0 {
        true
    } else if a[0] != b[0] {
        a[0] < b[0]
    } else {
        bytes_lt(a.drop_first(), b.drop_first())
    }
}

/// Label `a` comes before label `b`.
pub open spec fn label_lt(a: Seq<char>, b: Seq<char>) -> bool {
    bytes_lt(encode_utf8(a), encode_utf8(b))
}

/// The labels of `links` strictly increase, so each label appears once.
pub open spec fn labels_sorted(links: Seq<(String, String)>) -> bool {
    forall|i: int, j: int| 0 <= i < j < links.len() ==> label_lt(links[i].0@, links[j].0@)
}

/// The mapping that `links` gives, in order: a later link of a label replaces an earlier one.
pub open spec fn links_of(links: Seq<model::Link>) -> Map<Seq<char>, Seq<char>>
    decreases links.len(),
{
    if links.len() == 0 {
        Map::empty()
    } else {
        links_of(links.drop_last()).insert(links.last().display@, links.last().href@)
    }
}

/// `links` lists exactly the entries of `m`.
pub open spec fn links_match(links: Seq<(String, String)>, m: Map<Seq<char>, Seq<char>>) -> bool {
    &&& forall|i: int|
        0 <= i < links.len() ==> m.contains_key(#[trigger] links[i].0@) && m[links[i].0@]
            == links[i].1@
    &&& forall|k: Seq<char>| #[trigger]
        m.contains_key(k) ==> exists|i: int| 0 <= i < links.len() && #[trigger] links[i].0@ == k
}

proof fn lemma_bytes_irreflexive(a: Seq<u8>)
    ensures
        !bytes_lt(a, a),
    decreases a.len(),
{
    if a.len() > 0 {
        lemma_bytes_irreflexive(a.drop_first());
    }
}

proof fn lemma_bytes_transitive(a: Seq<u8>, b: Seq<u8>, c: Seq<u8>)
    requires
        bytes_lt(a, b),
        bytes_lt(b, c),
    ensures
        bytes_lt(a, c),
    decreases a.len(),
{
    if a.len() > 0 && a[0] == b[0] && b[0] == c[0] {
        lemma_bytes_transitive(a.drop_first(), b.drop_first(), c.drop_first());
    }
}

proof fn lemma_bytes_total(a: Seq<u8>, b: Seq<u8>)
    requires
        a != b,
    ensures
        bytes_lt(a, b) || bytes_lt(b, a),
    decreases a.len(),
{
    if a.len() == 0 {
        if b.len() == 0 {
            assert(a =~= b);
        }
    } else if b.len() == 0 {
    } else if a[0] == b[0] {
        assert(a.drop_first() != b.drop_first()) by {
            if a.drop_first() == b.drop_first() {
                assert(a =~= seq![a[0]] + a.drop_first());
                assert(b =~= seq![b[0]] + b.drop_first());
            }
        }
        lemma_bytes_total(a.drop_first(), b.drop_first());
    }
}

/// Comparing after an equal prefix.
proof fn lemma_bytes_skip(a: Seq<u8>, b: Seq<u8>, i: int)
    requires
        0 <= i <= a.len(),
        i <= b.len(),
        a.take(i) == b.take(i),
    ensures
        bytes_lt(a, b) == bytes_lt(a.skip(i), b.skip(i)),
    decreases i,
{
    if i > 0 {
        assert(a[0] == a.take(i)[0]);
        assert(b[0] == b.take(i)[0]);
        assert(a.drop_first().take(i - 1) =~= a.take(i).drop_first());
        assert(b.drop_first().take(i - 1) =~= b.take(i).drop_first());
        lemma_bytes_skip(a.drop_first(), b.drop_first(), i - 1);
        assert(a.drop_first().skip(i - 1) =~= a.skip(i));
        assert(b.drop_first().skip(i - 1) =~= b.skip(i));
    } else {
        assert(a.skip(0) =~= a);
        assert(b.skip(0) =~= b);
    }
}

/// Labels with different text differ in their bytes.
proof fn lemma_label_total(a: Seq<char>, b: Seq<char>)
    requires
        a != b,
    ensures
        label_lt(a, b) || label_lt(b, a),
{
    encode_utf8_decode_utf8(a);
    encode_utf8_decode_utf8(b);
    lemma_bytes_total(encode_utf8(a), encode_utf8(b));
}

/// `a` comes before `b` in lexicographic byte order.
fn bytes_less(a: &[u8], b: &[u8]) -> (r: bool)
    ensures
        r == bytes_lt(a@, b@),
{
    let mut i: usize = 0;
    while i < a.len() && i < b.len() && a[i] == b[i]
        invariant
            i <= a@.len(),
            i <= b@.len(),
            a@.take(i as int) == b@.take(i as int),
        decreases a@.len() - i,
    {
        assert(a@.take(i + 1) =~= a@.take(i as int).push(a@[i as int]));
        assert(b@.take(i + 1) =~= b@.take(i as int).push(b@[i as int]));
        i = i + 1;
    }
    proof {
        lemma_bytes_skip(a@, b@, i as int);
    }
    if i == b.len() {
        false
    } else if i == a.len() {
        true
    } else {
        a[i] < b[i]
    }
}

/// Sets the URL of `label` to `url`, adding the label in its place where it is new.
pub fn insert_link(
    links: &mut Vec<(String, String)>,
    label: String,
    url: String,
    Ghost(m): Ghost<Map<Seq<char>, Seq<char>>>,
)
    requires
        labels_sorted(old(links)@),
        links_match(old(links)@, m),
    ensures
        labels_sorted(final(links)@),
        links_match(final(links)@, m.insert(label@, url@)),
{
    let ghost old_links = links@;
    let ghost lab = label@;
    let len = links.len();
    let mut j: usize = 0;
    while j < len && bytes_less(links[j].0.as_str().as_bytes(), label.as_str().as_bytes())
        invariant
            j <= len,
            len == links@.len(),
            links@ == old_links,
            lab == label@,
            forall|i: int| 0 <= i < j ==> #[trigger] label_lt(links@[i].0@, lab),
        decreases len - j,
    {
        j = j + 1;
    }
    let ghost m2 = m.insert(lab, url@);
    if j < len && links[j].0 == label {
        let ghost u = url@;
        links.set(j, (label, url));
        proof {
            let v = links@;
            assert forall|i: int| 0 <= i < v.len() implies m2.contains_key(#[trigger] v[i].0@)
                && m2[v[i].0@] == v[i].1@ by {
                if i != j {
                    assert(m.contains_key(old_links[i].0@));
                    assert(old_links[i].0@ != lab) by {
                        if i < j {
                            assert(label_lt(old_links[i].0@, old_links[j as int].0@));
                        } else {
                            assert(label_lt(old_links[j as int].0@, old_links[i].0@));
                        }
                        lemma_bytes_irreflexive(encode_utf8(lab));
                    }
                }
            }
            assert forall|k: Seq<char>| #[trigger] m2.contains_key(k) implies exists|i: int|
                0 <= i < v.len() && #[trigger] v[i].0@ == k by {
                if k != lab {
                    let i = choose|i: int| 0 <= i < old_links.len() && #[trigger] old_links[i].0@ == k;
                    assert(v[i].0@ == k);
                } else {
                    assert(v[j as int].0@ == k);
                }
            }
            assert forall|a: int, b: int| 0 <= a < b < v.len() implies label_lt(v[a].0@, v[b].0@) by {
                assert(label_lt(old_links[a].0@, old_links[b].0@));
            }
        }
    } else {
        links.insert(j, (label, url));
        proof {
            let v = links@;
            lemma_bytes_irreflexive(encode_utf8(lab));
            if j < len {
                assert(old_links[j as int].0@ != lab);
                lemma_label_total(old_links[j as int].0@, lab);
                assert(label_lt(lab, old_links[j as int].0@));
            }
            assert forall|i: int| j <= i < len implies #[trigger] label_lt(lab, old_links[i].0@) by {
                if i > j {
                    assert(label_lt(old_links[j as int].0@, old_links[i].0@));
                    lemma_bytes_transitive(
                        encode_utf8(lab),
                        encode_utf8(old_links[j as int].0@),
                        encode_utf8(old_links[i].0@),
                    );
                }
            }
            assert forall|i: int| 0 <= i < len implies old_links[i].0@ != lab by {
                if i < j {
                    assert(label_lt(old_links[i].0@, lab));
                } else {
                    assert(label_lt(lab, old_links[i].0@));
                }
            }
            assert forall|a: int, b: int| 0 <= a < b < v.len() implies label_lt(v[a].0@, v[b].0@) by {
                if b < j {
                    assert(label_lt(old_links[a].0@, old_links[b].0@));
                } else if b == j {
                    assert(label_lt(old_links[a].0@, lab));
                } else if a < j {
                    assert(label_lt(old_links[a].0@, lab));
                    assert(label_lt(lab, old_links[b - 1].0@));
                    lemma_bytes_transitive(
                        encode_utf8(old_links[a].0@),
                        encode_utf8(lab),
                        encode_utf8(old_links[b - 1].0@),
                    );
                } else if a == j {
                    assert(label_lt(lab, old_links[b - 1].0@));
                } else {
                    assert(label_lt(old_links[a - 1].0@, old_links[b - 1].0@));
                }
            }
            assert forall|i: int| 0 <= i < v.len() implies m2.contains_key(#[trigger] v[i].0@)
                && m2[v[i].0@] == v[i].1@ by {
                if i < j {
                    assert(m.contains_key(old_links[i].0@));
                } else if i > j {
                    assert(v[i] == old_links[i - 1]);
                    assert(m.contains_key(old_links[i - 1].0@));
                }
            }
            assert forall|k: Seq<char>| #[trigger] m2.contains_key(k) implies exists|i: int|
                0 <= i < v.len() && #[trigger] v[i].0@ == k by {
                if k != lab {
                    let i = choose|i: int| 0 <= i < old_links.len() && #[trigger] old_links[i].0@ == k;
                    if i < j {
                        assert(v[i].0@ == k);
                    } else {
                        assert(v[i + 1].0@ == k);
                    }
                } else {
                    assert(v[j as int].0@ == k);
                }
            }
        }
    }
}

} // verus!
