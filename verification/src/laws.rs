//! The library's laws: what holds of every walk, stated over the same spec
//! functions the public contracts use, and proved once and for all.

use vstd::prelude::*;
use vstd::utf8::{decode_utf8, encode_utf8, encode_utf8_decode_utf8};
use crate::digest::HashAlgo;
use crate::object::{
    dec_digits, entry_bytes, lemma_tree_payload_append, oct_digits, tree_bytes, tree_payload,
    EntryModel, FileMode,
};
use crate::path::PathModel;
use crate::walk::{
    blob_entry_model, entry_key, insert_sorted, key_le, lemma_sort_entries_multiset, lex_le,
    sort_entries, walk_events, InputModel, TrebloWalk,
};

verus! {

broadcast use vstd::multiset::group_multiset_axioms;

/// Entries sorted by Git's tree rule, earlier keys first.
pub open spec fn sorted_by_key(s: Seq<EntryModel>) -> bool {
    forall|i: int, j: int| 0 <= i < j < s.len() ==> key_le(#[trigger] s[i], #[trigger] s[j])
}

/// No two distinct entries share a sort key; true of any one directory's
/// children, whose names are unique.
pub open spec fn keys_separate(s: Seq<EntryModel>) -> bool {
    forall|x: EntryModel, y: EntryModel|
        s.contains(x) && s.contains(y) && entry_key(x) == entry_key(y) ==> x == y
}

proof fn lemma_lex_le_total(a: Seq<u8>, b: Seq<u8>)
    ensures
        lex_le(a, b) || lex_le(b, a),
    decreases a.len(),
{
    if a.len() > 0 && b.len() > 0 && a[0] == b[0] {
        lemma_lex_le_total(a.drop_first(), b.drop_first());
    }
}

proof fn lemma_lex_le_antisym(a: Seq<u8>, b: Seq<u8>)
    requires
        lex_le(a, b),
        lex_le(b, a),
    ensures
        a == b,
    decreases a.len(),
{
    if a.len() == 0 {
        assert(b.len() == 0);
        assert(a =~= b);
    } else {
        assert(a[0] == b[0]);
        lemma_lex_le_antisym(a.drop_first(), b.drop_first());
        assert(a.len() == b.len());
        assert forall|k: int| 0 <= k < a.len() implies a[k] == b[k] by {
            if k > 0 {
                assert(a.drop_first()[k - 1] == b.drop_first()[k - 1]);
            }
        }
        assert(a =~= b);
    }
}

proof fn lemma_lex_le_trans(a: Seq<u8>, b: Seq<u8>, c: Seq<u8>)
    requires
        lex_le(a, b),
        lex_le(b, c),
    ensures
        lex_le(a, c),
    decreases a.len(),
{
    if a.len() > 0 && b.len() > 0 && c.len() > 0 && a[0] == b[0] && b[0] == c[0] {
        lemma_lex_le_trans(a.drop_first(), b.drop_first(), c.drop_first());
    }
}

proof fn lemma_insert_sorted_members(e: EntryModel, s: Seq<EntryModel>, x: EntryModel)
    requires
        insert_sorted(e, s).contains(x),
    ensures
        x == e || s.contains(x),
    decreases s.len(),
{
    crate::walk::lemma_insert_sorted_multiset_pub(e, s);
    insert_sorted(e, s).to_multiset_ensures();
    s.to_multiset_ensures();
    assert(insert_sorted(e, s).to_multiset().count(x) > 0);
    if x != e {
        assert(insert_sorted(e, s).to_multiset().count(x) == s.to_multiset().count(x));
        assert(s.contains(x));
    }
}

proof fn lemma_insert_sorted_sorted(e: EntryModel, s: Seq<EntryModel>)
    requires
        sorted_by_key(s),
    ensures
        sorted_by_key(insert_sorted(e, s)),
    decreases s.len(),
{
    if s.len() == 0 {
    } else if key_le(s[0], e) {
        assert(sorted_by_key(s.drop_first()));
        lemma_insert_sorted_sorted(e, s.drop_first());
        let t = insert_sorted(e, s);
        let rest = insert_sorted(e, s.drop_first());
        assert(t =~= seq![s[0]] + rest);
        assert forall|i: int, j: int| 0 <= i < j < t.len() implies key_le(
            #[trigger] t[i],
            #[trigger] t[j],
        ) by {
            if i == 0 {
                assert(t[j] == rest[j - 1]);
                assert(rest.contains(rest[j - 1]));
                lemma_insert_sorted_members(e, s.drop_first(), rest[j - 1]);
                if rest[j - 1] == e {
                    assert(key_le(s[0], e));
                } else {
                    let k = choose|k: int|
                        0 <= k < s.drop_first().len() && s.drop_first()[k] == rest[j - 1];
                    assert(s[k + 1] == rest[j - 1]);
                    assert(key_le(s[0], s[k + 1]));
                }
            } else {
                assert(t[i] == rest[i - 1]);
                assert(t[j] == rest[j - 1]);
                assert(key_le(rest[i - 1], rest[j - 1]));
            }
        }
    } else {
        let t = insert_sorted(e, s);
        assert(t =~= seq![e] + s);
        lemma_lex_le_total(entry_key(s[0]), entry_key(e));
        assert(key_le(e, s[0]));
        assert forall|i: int, j: int| 0 <= i < j < t.len() implies key_le(
            #[trigger] t[i],
            #[trigger] t[j],
        ) by {
            if i == 0 {
                assert(t[j] == s[j - 1]);
                if j == 1 {
                    assert(key_le(e, s[0]));
                } else {
                    assert(key_le(s[0], s[j - 1]));
                    lemma_lex_le_trans(entry_key(e), entry_key(s[0]), entry_key(s[j - 1]));
                }
            } else {
                assert(key_le(s[i - 1], s[j - 1]));
            }
        }
    }
}

/// Sorting by Git's rule really sorts.
pub proof fn lemma_sort_entries_sorted(s: Seq<EntryModel>)
    ensures
        sorted_by_key(sort_entries(s)),
    decreases s.len(),
{
    if s.len() > 0 {
        lemma_sort_entries_sorted(s.drop_last());
        lemma_insert_sorted_sorted(s.last(), sort_entries(s.drop_last()));
    }
}

proof fn lemma_sorted_unique(a: Seq<EntryModel>, b: Seq<EntryModel>)
    requires
        sorted_by_key(a),
        sorted_by_key(b),
        a.to_multiset() == b.to_multiset(),
        keys_separate(a),
    ensures
        a == b,
    decreases a.len(),
{
    a.to_multiset_ensures();
    b.to_multiset_ensures();
    assert(a.len() == b.len());
    if a.len() == 0 {
        assert(a =~= b);
    } else {
        assert(a.contains(a[0]));
        assert(b.to_multiset().count(a[0]) > 0);
        assert(b.contains(a[0]));
        assert(a.to_multiset().count(b[0]) > 0);
        assert(a.contains(b[0]));
        let ib = choose|k: int| 0 <= k < b.len() && b[k] == a[0];
        let ia = choose|k: int| 0 <= k < a.len() && a[k] == b[0];
        lemma_lex_le_total(entry_key(a[0]), entry_key(a[0]));
        lemma_lex_le_total(entry_key(b[0]), entry_key(b[0]));
        if ib > 0 {
            assert(key_le(b[0], b[ib]));
        }
        if ia > 0 {
            assert(key_le(a[0], a[ia]));
        }
        assert(key_le(b[0], a[0]));
        assert(key_le(a[0], b[0]));
        lemma_lex_le_antisym(entry_key(a[0]), entry_key(b[0]));
        assert(a[0] == b[0]);
        let at = a.drop_first();
        let bt = b.drop_first();
        assert(a.remove(0) =~= at);
        assert(b.remove(0) =~= bt);
        assert(at.to_multiset() =~= a.to_multiset().remove(a[0]));
        assert(bt.to_multiset() =~= b.to_multiset().remove(b[0]));
        assert(at.to_multiset() == bt.to_multiset());
        assert(sorted_by_key(at));
        assert(sorted_by_key(bt));
        assert forall|x: EntryModel, y: EntryModel|
            at.contains(x) && at.contains(y) && entry_key(x) == entry_key(y) implies x == y by {
            let kx = choose|k: int| 0 <= k < at.len() && at[k] == x;
            let ky = choose|k: int| 0 <= k < at.len() && at[k] == y;
            assert(a[kx + 1] == x);
            assert(a[ky + 1] == y);
            assert(a.contains(x));
            assert(a.contains(y));
        }
        lemma_sorted_unique(at, bt);
        assert forall|k: int| 0 <= k < a.len() implies a[k] == b[k] by {
            if k > 0 {
                assert(at[k - 1] == bt[k - 1]);
            }
        }
        assert(a =~= b);
    }
}

/// A directory's tree object does not depend on the order in which the walk
/// met its children: any two arrival orders of the same children — with
/// their distinct names — sort to the same entry list and serialize to the
/// same tree object, so the digest input is identical.
pub proof fn lemma_tree_independent_of_order(a: Seq<EntryModel>, b: Seq<EntryModel>)
    requires
        a.to_multiset() == b.to_multiset(),
        keys_separate(a),
    ensures
        sort_entries(a) == sort_entries(b),
        tree_bytes(sort_entries(a)) == tree_bytes(sort_entries(b)),
{
    lemma_sort_entries_multiset(a);
    lemma_sort_entries_multiset(b);
    lemma_sort_entries_sorted(a);
    lemma_sort_entries_sorted(b);
    let sa = sort_entries(a);
    let sb = sort_entries(b);
    sa.to_multiset_ensures();
    a.to_multiset_ensures();
    assert forall|x: EntryModel, y: EntryModel|
        sa.contains(x) && sa.contains(y) && entry_key(x) == entry_key(y) implies x == y by {
        assert(sa.to_multiset().count(x) > 0);
        assert(sa.to_multiset().count(y) > 0);
        assert(a.contains(x));
        assert(a.contains(y));
    }
    lemma_sorted_unique(sa, sb);
}

/// Two walks with the same configuration over an unchanged tree — the same
/// entries, fed in the same order — emit identical events, digest for
/// digest, at every path.
pub proof fn lemma_walk_idempotent(
    cfg: TrebloWalk,
    root: PathModel,
    root_is_dir: bool,
    first: Seq<InputModel>,
    second: Seq<InputModel>,
)
    requires
        first == second,
    ensures
        walk_events(cfg, root, root_is_dir, first) == walk_events(cfg, root, root_is_dir, second),
{
}

/// A blob's digest is a function of the payload alone: renaming or moving a
/// file changes its entry's name but never its blob digest.
pub proof fn lemma_blob_digest_ignores_name(
    algo: HashAlgo,
    before: PathModel,
    after: PathModel,
    mode: FileMode,
    content: Seq<u8>,
)
    ensures
        blob_entry_model(algo, before, mode, content).digest == blob_entry_model(
            algo,
            after,
            mode,
            content,
        ).digest,
{
}

/// A directory with no children serializes to the well-known empty tree
/// object, `"tree 0\0"`, whatever produced it.
pub proof fn lemma_empty_tree_object()
    ensures
        tree_bytes(Seq::<EntryModel>::empty()) == seq![
            116u8,
            114u8,
            101u8,
            101u8,
            32u8,
            48u8,
            0u8,
        ],
{
    assert(tree_payload(Seq::<EntryModel>::empty()) =~= Seq::<u8>::empty());
    assert(dec_digits(0) =~= seq![48u8]);
    assert(tree_bytes(Seq::<EntryModel>::empty()) =~= seq![
        116u8,
        114u8,
        101u8,
        101u8,
        32u8,
        48u8,
        0u8,
    ]);
}

/// A symbolic link's blob digest is computed over its raw target text, so it
/// equals the digest of a regular file holding that same text — yet the two
/// entries stay distinct inside any tree, because their modes differ.
pub proof fn lemma_symlink_distinct_from_regular(
    algo: HashAlgo,
    path: PathModel,
    content: Seq<u8>,
)
    ensures
        blob_entry_model(algo, path, FileMode::symlink_mode(), content).digest
            == blob_entry_model(algo, path, FileMode::regular_mode(), content).digest,
        entry_bytes(blob_entry_model(algo, path, FileMode::symlink_mode(), content))
            != entry_bytes(blob_entry_model(algo, path, FileMode::regular_mode(), content)),
{
    assert(oct_digits(1) =~= seq![49u8]);
    assert(oct_digits(10) =~= seq![49u8, 50u8]);
    assert(oct_digits(80) =~= seq![49u8, 50u8, 48u8]);
    assert(oct_digits(640) =~= seq![49u8, 50u8, 48u8, 48u8]);
    assert(oct_digits(5120) =~= seq![49u8, 50u8, 48u8, 48u8, 48u8]);
    assert(oct_digits(40960) =~= seq![49u8, 50u8, 48u8, 48u8, 48u8, 48u8]);
    assert(oct_digits(8) =~= seq![49u8, 48u8]);
    assert(oct_digits(64) =~= seq![49u8, 48u8, 48u8]);
    assert(oct_digits(518) =~= seq![49u8, 48u8, 48u8, 54u8]);
    assert(oct_digits(4148) =~= seq![49u8, 48u8, 48u8, 54u8, 52u8]);
    assert(oct_digits(33188) =~= seq![49u8, 48u8, 48u8, 54u8, 52u8, 52u8]);
    let sym = blob_entry_model(algo, path, FileMode::symlink_mode(), content);
    let reg = blob_entry_model(algo, path, FileMode::regular_mode(), content);
    assert(entry_bytes(sym)[1] == 50u8);
    assert(entry_bytes(reg)[1] == 48u8);
}

proof fn lemma_entry_bytes_pins_name(e1: EntryModel, e2: EntryModel)
    requires
        e1.mode == e2.mode,
        e1.digest == e2.digest,
        entry_bytes(e1) == entry_bytes(e2),
    ensures
        e1.name == e2.name,
{
    broadcast use encode_utf8_decode_utf8;

    let o = oct_digits(e1.mode.value() as nat);
    let u1 = encode_utf8(e1.name);
    let u2 = encode_utf8(e2.name);
    assert(entry_bytes(e1).len() == o.len() + 1 + u1.len() + 1 + e1.digest.len());
    assert(entry_bytes(e2).len() == o.len() + 1 + u2.len() + 1 + e2.digest.len());
    assert(u1.len() == u2.len());
    assert forall|k: int| 0 <= k < u1.len() implies u1[k] == u2[k] by {
        assert(entry_bytes(e1)[o.len() + 1 + k] == u1[k]);
        assert(entry_bytes(e2)[o.len() + 1 + k] == u2[k]);
    }
    assert(u1 =~= u2);
    assert(decode_utf8(u1) == e1.name);
    assert(decode_utf8(u2) == e2.name);
}

/// Renaming one child — same mode, same content and so the same digest, a
/// new name — changes the parent's tree payload: the serialized tree that
/// the parent's digest is computed over differs, and so does every
/// ancestor's in turn, each of which embeds its child's digest bytes.
pub proof fn lemma_rename_changes_tree(
    before: Seq<EntryModel>,
    after: Seq<EntryModel>,
    i: int,
)
    requires
        before.len() == after.len(),
        0 <= i < before.len(),
        forall|k: int| 0 <= k < before.len() && k != i ==> before[k] == after[k],
        before[i].mode == after[i].mode,
        before[i].digest == after[i].digest,
        before[i].name != after[i].name,
    ensures
        tree_payload(before) != tree_payload(after),
{
    let x = entry_bytes(before[i]);
    let y = entry_bytes(after[i]);
    assert(seq![before[i]].drop_first() =~= Seq::<EntryModel>::empty());
    assert(seq![after[i]].drop_first() =~= Seq::<EntryModel>::empty());
    assert(tree_payload(Seq::<EntryModel>::empty()) =~= Seq::<u8>::empty());
    assert(tree_payload(seq![before[i]]) =~= x);
    assert(tree_payload(seq![after[i]]) =~= y);
    lemma_tree_payload_append(before.take(i), seq![before[i]]);
    lemma_tree_payload_append(before.take(i) + seq![before[i]], before.skip(i + 1));
    lemma_tree_payload_append(after.take(i), seq![after[i]]);
    lemma_tree_payload_append(after.take(i) + seq![after[i]], after.skip(i + 1));
    assert(before =~= (before.take(i) + seq![before[i]]) + before.skip(i + 1));
    assert(after =~= (after.take(i) + seq![after[i]]) + after.skip(i + 1));
    assert(before.take(i) =~= after.take(i));
    assert(before.skip(i + 1) =~= after.skip(i + 1));
    let pa = tree_payload(before.take(i));
    let sa = tree_payload(before.skip(i + 1));
    assert(tree_payload(before) == (pa + x) + sa);
    assert(tree_payload(after) == (pa + y) + sa);
    if tree_payload(before) == tree_payload(after) {
        assert(tree_payload(before).len() == pa.len() + x.len() + sa.len());
        assert(tree_payload(after).len() == pa.len() + y.len() + sa.len());
        assert(x.len() == y.len());
        assert forall|k: int| 0 <= k < x.len() implies x[k] == y[k] by {
            assert(tree_payload(before)[pa.len() + k] == x[k]);
            assert(tree_payload(after)[pa.len() + k] == y[k]);
        }
        assert(x =~= y);
        lemma_entry_bytes_pins_name(before[i], after[i]);
        assert(false);
    }
}

proof fn lemma_entry_bytes_pins_digest(e1: EntryModel, e2: EntryModel)
    requires
        e1.mode == e2.mode,
        e1.name == e2.name,
        entry_bytes(e1) == entry_bytes(e2),
    ensures
        e1.digest == e2.digest,
{
    let o = oct_digits(e1.mode.value() as nat);
    let u = encode_utf8(e1.name);
    assert(entry_bytes(e1).len() == o.len() + 1 + u.len() + 1 + e1.digest.len());
    assert(entry_bytes(e2).len() == o.len() + 1 + u.len() + 1 + e2.digest.len());
    assert(e1.digest.len() == e2.digest.len());
    assert forall|k: int| 0 <= k < e1.digest.len() implies e1.digest[k] == e2.digest[k] by {
        assert(entry_bytes(e1)[o.len() + 1 + u.len() + 1 + k] == e1.digest[k]);
        assert(entry_bytes(e2)[o.len() + 1 + u.len() + 1 + k] == e2.digest[k]);
    }
    assert(e1.digest =~= e2.digest);
}

/// When a child's digest changes — because its own content or subtree
/// changed — the parent's tree payload changes with it: the change cascades
/// to every ancestor, each of which embeds its child's raw digest bytes.
pub proof fn lemma_child_digest_changes_tree(
    before: Seq<EntryModel>,
    after: Seq<EntryModel>,
    i: int,
)
    requires
        before.len() == after.len(),
        0 <= i < before.len(),
        forall|k: int| 0 <= k < before.len() && k != i ==> before[k] == after[k],
        before[i].mode == after[i].mode,
        before[i].name == after[i].name,
        before[i].digest != after[i].digest,
    ensures
        tree_payload(before) != tree_payload(after),
{
    let x = entry_bytes(before[i]);
    let y = entry_bytes(after[i]);
    assert(seq![before[i]].drop_first() =~= Seq::<EntryModel>::empty());
    assert(seq![after[i]].drop_first() =~= Seq::<EntryModel>::empty());
    assert(tree_payload(Seq::<EntryModel>::empty()) =~= Seq::<u8>::empty());
    assert(tree_payload(seq![before[i]]) =~= x);
    assert(tree_payload(seq![after[i]]) =~= y);
    lemma_tree_payload_append(before.take(i), seq![before[i]]);
    lemma_tree_payload_append(before.take(i) + seq![before[i]], before.skip(i + 1));
    lemma_tree_payload_append(after.take(i), seq![after[i]]);
    lemma_tree_payload_append(after.take(i) + seq![after[i]], after.skip(i + 1));
    assert(before =~= (before.take(i) + seq![before[i]]) + before.skip(i + 1));
    assert(after =~= (after.take(i) + seq![after[i]]) + after.skip(i + 1));
    assert(before.take(i) =~= after.take(i));
    assert(before.skip(i + 1) =~= after.skip(i + 1));
    let pa = tree_payload(before.take(i));
    let sa = tree_payload(before.skip(i + 1));
    assert(tree_payload(before) == (pa + x) + sa);
    assert(tree_payload(after) == (pa + y) + sa);
    if tree_payload(before) == tree_payload(after) {
        assert(tree_payload(before).len() == pa.len() + x.len() + sa.len());
        assert(tree_payload(after).len() == pa.len() + y.len() + sa.len());
        assert(x.len() == y.len());
        assert forall|k: int| 0 <= k < x.len() implies x[k] == y[k] by {
            assert(tree_payload(before)[pa.len() + k] == x[k]);
            assert(tree_payload(after)[pa.len() + k] == y[k]);
        }
        assert(x =~= y);
        lemma_entry_bytes_pins_digest(before[i], after[i]);
        assert(false);
    }
}

} // verus!
