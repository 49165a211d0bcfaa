//! The walk driver: consumes entries in a non-revisiting traversal order,
//! hashes blobs as they arrive, keeps not-yet-folded children in a resolving
//! map, and resolves each directory exactly once, as soon as all of its
//! descendants have been seen.

use vstd::prelude::*;
use vstd::utf8::encode_utf8;
use crate::digest::{digest_of, hash_object, HashAlgo};
use crate::object::{
    blob_bytes, blob_from_bytes, models_of, tree_bytes, tree_from_entries, EntryModel, FileMode,
    TreeEntry,
};
use crate::path::{
    is_path_prefix, item_model, lemma_stack_tracks_parent, parent_of_item, prefix_range,
    process_resolved, process_stack, run_resolved, traversal_wf, PathModel, PathWalkState,
    TreePath,
};

verus! {

broadcast use crate::views::lemma_vec_deep_view_len, crate::views::lemma_vec_deep_view_index;

/// Git's tree sort key: the name's bytes, with `/` appended when the entry
/// is a directory, so that a directory `foo` orders as `foo/`.
pub open spec fn entry_key(e: EntryModel) -> Seq<u8> {
    if e.mode == FileMode::dir_mode() {
        encode_utf8(e.name) + seq![47u8]
    } else {
        encode_utf8(e.name)
    }
}

/// Lexicographic order on byte sequences; a proper prefix comes first.
pub open spec fn lex_le(a: Seq<u8>, b: Seq<u8>) -> bool
    decreases a.len(),
{
    if a.len() == 0 {
        true
    } else if b.len() == 0 {
        false
    } else if a[0] < b[0] {
        true
    } else if a[0] > b[0] {
        false
    } else {
        lex_le(a.drop_first(), b.drop_first())
    }
}

/// One entry ordered no later than another under Git's tree sort rule.
pub open spec fn key_le(a: EntryModel, b: EntryModel) -> bool {
    lex_le(entry_key(a), entry_key(b))
}

/// Where a stable insertion places an entry: after every entry that orders
/// no later than it.
pub open spec fn insert_sorted(e: EntryModel, s: Seq<EntryModel>) -> Seq<EntryModel>
    decreases s.len(),
{
    if s.len() == 0 {
        seq![e]
    } else if key_le(s[0], e) {
        seq![s[0]] + insert_sorted(e, s.drop_first())
    } else {
        seq![e] + s
    }
}

/// The stable sort of entries under Git's tree rule, one insertion at a
/// time, left to right.
pub open spec fn sort_entries(s: Seq<EntryModel>) -> Seq<EntryModel>
    decreases s.len(),
{
    if s.len() == 0 {
        Seq::empty()
    } else {
        insert_sorted(s.last(), sort_entries(s.drop_last()))
    }
}

proof fn lemma_insert_sorted_at(e: EntryModel, s: Seq<EntryModel>, pos: int)
    requires
        0 <= pos <= s.len(),
        forall|k: int| 0 <= k < pos ==> key_le(#[trigger] s[k], e),
        pos < s.len() ==> !key_le(s[pos], e),
    ensures
        insert_sorted(e, s) == s.take(pos) + seq![e] + s.skip(pos),
    decreases pos,
{
    if pos == 0 {
        if s.len() == 0 {
            assert(insert_sorted(e, s) =~= s.take(0) + seq![e] + s.skip(0));
        } else {
            assert(!key_le(s[0], e));
            assert(s.take(0) + seq![e] + s.skip(0) =~= seq![e] + s);
        }
    } else {
        assert(key_le(s[0], e));
        lemma_insert_sorted_at(e, s.drop_first(), pos - 1);
        assert(s.drop_first().take(pos - 1) =~= s.take(pos).drop_first());
        assert(s.drop_first().skip(pos - 1) =~= s.skip(pos));
        assert(seq![s[0]] + (s.drop_first().take(pos - 1) + seq![e] + s.drop_first().skip(
            pos - 1,
        )) =~= s.take(pos) + seq![e] + s.skip(pos));
    }
}

fn entry_key_vec(e: &TreeEntry) -> (k: Vec<u8>)
    ensures
        k@ == entry_key(e@),
{
    let mut k: Vec<u8> = Vec::new();
    crate::object::push_bytes(&mut k, e.name.as_str().as_bytes());
    proof {
        assert(Seq::<u8>::empty() + encode_utf8(e.name@) =~= encode_utf8(e.name@));
    }
    if e.file_mode.is_dir() {
        k.push(47);
        proof {
            assert(k@ =~= encode_utf8(e.name@) + seq![47u8]);
        }
    }
    k
}

fn lex_le_bytes(a: &Vec<u8>, b: &Vec<u8>) -> (r: bool)
    ensures
        r == lex_le(a@, b@),
{
    let mut i: usize = 0;
    proof {
        assert(a@.skip(0) =~= a@);
        assert(b@.skip(0) =~= b@);
    }
    while i < a.len() && i < b.len()
        invariant
            i <= a.len(),
            i <= b.len(),
            lex_le(a@, b@) == lex_le(a@.skip(i as int), b@.skip(i as int)),
        decreases a.len() - i,
    {
        if a[i] < b[i] {
            proof {
                assert(a@.skip(i as int)[0] == a@[i as int]);
                assert(b@.skip(i as int)[0] == b@[i as int]);
            }
            return true;
        }
        if a[i] > b[i] {
            proof {
                assert(a@.skip(i as int)[0] == a@[i as int]);
                assert(b@.skip(i as int)[0] == b@[i as int]);
            }
            return false;
        }
        proof {
            assert(a@.skip(i as int)[0] == a@[i as int]);
            assert(b@.skip(i as int)[0] == b@[i as int]);
            assert(a@.skip(i as int).drop_first() =~= a@.skip(i + 1));
            assert(b@.skip(i as int).drop_first() =~= b@.skip(i + 1));
        }
        i = i + 1;
    }
    proof {
        if i == a@.len() {
            assert(a@.skip(i as int).len() == 0);
        } else {
            assert(b@.skip(i as int).len() == 0);
            assert(a@.skip(i as int).len() > 0);
        }
    }
    a.len() <= b.len()
}

/// Inserts one entry into an already sorted vector, after every entry that
/// orders no later than it.
fn insert_entry(sorted: &mut Vec<TreeEntry>, e: TreeEntry)
    ensures
        models_of(final(sorted)@) == insert_sorted(e@, models_of(old(sorted)@)),
{
    let ghost s0 = models_of(sorted@);
    let ek = entry_key_vec(&e);
    let mut pos: usize = 0;
    loop
        invariant
            pos <= sorted@.len(),
            s0 == models_of(sorted@),
            ek@ == entry_key(e@),
            forall|k: int| 0 <= k < pos ==> key_le(#[trigger] s0[k], e@),
        ensures
            pos <= sorted@.len(),
            s0 == models_of(sorted@),
            forall|k: int| 0 <= k < pos ==> key_le(#[trigger] s0[k], e@),
            pos < sorted@.len() ==> !key_le(s0[pos as int], e@),
        decreases sorted@.len() - pos,
    {
        if pos == sorted.len() {
            break ;
        }
        let ik = entry_key_vec(&sorted[pos]);
        proof {
            assert(s0[pos as int] == sorted@[pos as int]@);
        }
        if !lex_le_bytes(&ik, &ek) {
            break ;
        }
        pos = pos + 1;
    }
    proof {
        lemma_insert_sorted_at(e@, s0, pos as int);
    }
    let ghost e_model = e@;
    sorted.insert(pos, e);
    proof {
        assert(models_of(sorted@) =~= s0.take(pos as int) + seq![e_model] + s0.skip(pos as int));
    }
}

/// Sorts entries by Git's tree rule: name bytes, directories compared as if
/// their name ended in `/`; a stable, total order.
pub fn sort_tree_entries(entries: Vec<TreeEntry>) -> (r: Vec<TreeEntry>)
    ensures
        models_of(r@) == sort_entries(models_of(entries@)),
{
    let mut r: Vec<TreeEntry> = Vec::new();
    let mut i: usize = 0;
    proof {
        assert(models_of(entries@.take(0)) =~= Seq::<EntryModel>::empty());
        assert(models_of(r@) =~= sort_entries(models_of(entries@.take(0))));
    }
    while i < entries.len()
        invariant
            i <= entries.len(),
            models_of(r@) == sort_entries(models_of(entries@.take(i as int))),
        decreases entries.len() - i,
    {
        let e = entries[i].dup();
        proof {
            assert(e@ == entries@[i as int]@);
        }
        insert_entry(&mut r, e);
        proof {
            let m1 = models_of(entries@.take(i + 1));
            assert(m1.drop_last() =~= models_of(entries@.take(i as int)));
            assert(m1.last() == entries@[i as int]@);
            assert(models_of(r@) == sort_entries(m1));
        }
        i = i + 1;
    }
    proof {
        assert(entries@.take(entries@.len() as int) =~= entries@);
    }
    r
}

/// What one resolving-map slot is, mathematically: a full path and the
/// entry pending under it.
pub ghost struct SlotModel {
    pub path: PathModel,
    pub entry: EntryModel,
}

struct MapSlot {
    path: TreePath,
    entry: TreeEntry,
}

impl DeepView for MapSlot {
    type V = SlotModel;

    closed spec fn deep_view(&self) -> SlotModel {
        SlotModel { path: self.path@, entry: self.entry@ }
    }
}

/// What one walk callback is, mathematically.
pub ghost struct EventModel {
    pub path: PathModel,
    pub entry: EntryModel,
    pub is_tree: bool,
}

/// One emitted walk event: the entry's full path, the entry itself, and
/// whether it is a resolved tree rather than a blob.
pub struct WalkEvent {
    pub path: TreePath,
    pub entry: TreeEntry,
    pub is_tree: bool,
}

impl View for WalkEvent {
    type V = EventModel;

    open spec fn view(&self) -> EventModel {
        EventModel { path: self.path@, entry: self.entry@, is_tree: self.is_tree }
    }
}

impl DeepView for WalkEvent {
    type V = EventModel;

    open spec fn deep_view(&self) -> EventModel {
        self.view()
    }
}

/// What can go wrong during a walk: an unreadable entry, a path that is not
/// valid text, or an iterator fault such as an unenterable directory.
pub enum WalkError {
    Io(String),
    Encoding(String),
    Iter(String),
}

/// The slots whose path lies under `dir` (or is `dir` itself), in map
/// order: exactly the children collected when `dir` resolves.
pub open spec fn slots_under(map: Seq<SlotModel>, dir: PathModel) -> Seq<SlotModel>
    decreases map.len(),
{
    if map.len() == 0 {
        Seq::empty()
    } else {
        (if is_path_prefix(dir, map[0].path) {
            seq![map[0]]
        } else {
            Seq::empty()
        }) + slots_under(map.drop_first(), dir)
    }
}

/// The slots that survive a resolution of `dir`: those not under it.
pub open spec fn slots_not_under(map: Seq<SlotModel>, dir: PathModel) -> Seq<SlotModel>
    decreases map.len(),
{
    if map.len() == 0 {
        Seq::empty()
    } else {
        (if is_path_prefix(dir, map[0].path) {
            Seq::empty()
        } else {
            seq![map[0]]
        }) + slots_not_under(map.drop_first(), dir)
    }
}

pub proof fn lemma_slots_under_append(a: Seq<SlotModel>, b: Seq<SlotModel>, dir: PathModel)
    ensures
        slots_under(a + b, dir) == slots_under(a, dir) + slots_under(b, dir),
        slots_not_under(a + b, dir) == slots_not_under(a, dir) + slots_not_under(b, dir),
    decreases a.len(),
{
    if a.len() == 0 {
        assert(a + b =~= b);
        assert(slots_under(a, dir) + slots_under(b, dir) =~= slots_under(b, dir));
        assert(slots_not_under(a, dir) + slots_not_under(b, dir) =~= slots_not_under(b, dir));
    } else {
        lemma_slots_under_append(a.drop_first(), b, dir);
        assert((a + b)[0] == a[0]);
        assert((a + b).drop_first() =~= a.drop_first() + b);
        assert(slots_under(a + b, dir) =~= slots_under(a, dir) + slots_under(b, dir));
        assert(slots_not_under(a + b, dir) =~= slots_not_under(a, dir) + slots_not_under(
            b,
            dir,
        ));
    }
}

/// The entries held by a sequence of slots.
pub open spec fn entries_of(slots: Seq<SlotModel>) -> Seq<EntryModel> {
    slots.map_values(|s: SlotModel| s.entry)
}

/// The basename of a path: its last component, or empty text for the empty
/// path.
pub open spec fn base_name(p: PathModel) -> Seq<char> {
    if p.len() > 0 {
        p.last()
    } else {
        Seq::empty()
    }
}

/// The entry a directory resolves to: mode `40000`, its basename, and the
/// digest of its tree object built from its sorted pending children.
pub open spec fn resolve_entry(algo: HashAlgo, map: Seq<SlotModel>, dir: PathModel) -> EntryModel {
    EntryModel {
        mode: FileMode::dir_mode(),
        name: base_name(dir),
        digest: digest_of(algo, tree_bytes(sort_entries(entries_of(slots_under(map, dir))))),
    }
}

/// The map after a directory resolves: its children folded away, its own
/// entry pending for the ancestor that will consume it.
pub open spec fn resolve_map(algo: HashAlgo, map: Seq<SlotModel>, dir: PathModel) -> Seq<
    SlotModel,
> {
    slots_not_under(map, dir).push(SlotModel { path: dir, entry: resolve_entry(algo, map, dir) })
}

/// Resolving a run of directories in order: the final map, and one tree
/// event per directory.
pub open spec fn resolve_all(algo: HashAlgo, map: Seq<SlotModel>, dirs: Seq<PathModel>) -> (
    Seq<SlotModel>,
    Seq<EventModel>,
)
    decreases dirs.len(),
{
    if dirs.len() == 0 {
        (map, Seq::empty())
    } else {
        let entry = resolve_entry(algo, map, dirs[0]);
        let rest = resolve_all(algo, resolve_map(algo, map, dirs[0]), dirs.drop_first());
        (rest.0, seq![EventModel { path: dirs[0], entry, is_tree: true }] + rest.1)
    }
}

/// A resolution run emits exactly one tree event per resolved directory,
/// in resolution order.
pub proof fn lemma_resolve_all_one_event_per_dir(
    algo: HashAlgo,
    map: Seq<SlotModel>,
    dirs: Seq<PathModel>,
)
    ensures
        resolve_all(algo, map, dirs).1.len() == dirs.len(),
        forall|k: int|
            0 <= k < dirs.len() ==> (#[trigger] resolve_all(algo, map, dirs).1[k]).path == dirs[k]
                && resolve_all(algo, map, dirs).1[k].is_tree,
    decreases dirs.len(),
{
    if dirs.len() > 0 {
        let m2 = resolve_map(algo, map, dirs[0]);
        lemma_resolve_all_one_event_per_dir(algo, m2, dirs.drop_first());
        let evs = resolve_all(algo, map, dirs).1;
        let rest = resolve_all(algo, m2, dirs.drop_first()).1;
        assert forall|k: int| 0 <= k < dirs.len() implies (#[trigger] evs[k]).path == dirs[k]
            && evs[k].is_tree by {
            if k > 0 {
                assert(evs[k] == rest[k - 1]);
                assert(rest[k - 1].path == dirs.drop_first()[k - 1]);
            }
        }
    }
}

/// The entry a file hashes to: its mode, its basename, and the digest of
/// its blob object.
pub open spec fn blob_entry_model(
    algo: HashAlgo,
    path: PathModel,
    mode: FileMode,
    content: Seq<u8>,
) -> EntryModel {
    EntryModel { mode, name: base_name(path), digest: digest_of(algo, blob_bytes(content)) }
}

/// What one walk input is, mathematically: the entry's path, its mode, and
/// its payload bytes (a file's content, or a symbolic link's target text).
pub ghost struct InputModel {
    pub path: PathModel,
    pub mode: FileMode,
    pub content: Seq<u8>,
}

/// One step of the walk: what feeding one entry does to the resolving map,
/// the ancestor stack, and the event stream.
pub open spec fn walk_step(
    algo: HashAlgo,
    blob_only: bool,
    root: PathModel,
    map: Seq<SlotModel>,
    stack: Seq<PathModel>,
    inp: InputModel,
) -> (Seq<SlotModel>, Seq<PathModel>, Seq<EventModel>) {
    if inp.mode == FileMode::dir_mode() {
        (map, stack, Seq::empty())
    } else {
        let be = blob_entry_model(algo, inp.path, inp.mode, inp.content);
        let bev = EventModel { path: inp.path, entry: be, is_tree: false };
        if blob_only {
            (map, stack, seq![bev])
        } else {
            let map1 = map.push(SlotModel { path: inp.path, entry: be });
            let dirs = process_resolved(stack, Some(inp.path.drop_last()));
            let ra = resolve_all(algo, map1, dirs);
            (ra.0, process_stack(root, stack, Some(inp.path.drop_last())), seq![bev] + ra.1)
        }
    }
}

/// The end of the walk: every still-open directory resolves, the root last.
pub open spec fn finish_run(
    algo: HashAlgo,
    blob_only: bool,
    map: Seq<SlotModel>,
    stack: Seq<PathModel>,
) -> (Seq<SlotModel>, Seq<PathModel>, Seq<EventModel>) {
    if blob_only {
        (map, stack, Seq::empty())
    } else {
        let ra = resolve_all(algo, map, stack.reverse());
        (ra.0, Seq::empty(), ra.1)
    }
}

/// A whole run of entries through the walk, step by step.
pub open spec fn walk_run(
    algo: HashAlgo,
    blob_only: bool,
    root: PathModel,
    map: Seq<SlotModel>,
    stack: Seq<PathModel>,
    inputs: Seq<InputModel>,
) -> (Seq<SlotModel>, Seq<PathModel>, Seq<EventModel>)
    decreases inputs.len(),
{
    if inputs.len() == 0 {
        (map, stack, Seq::empty())
    } else {
        let st = walk_step(algo, blob_only, root, map, stack, inputs[0]);
        let rest = walk_run(algo, blob_only, root, st.0, st.1, inputs.drop_first());
        (rest.0, rest.1, st.2 + rest.2)
    }
}

/// Every event a whole walk emits: each entry fed in order, then the end of
/// the walk. A pure function of the configuration, the root and the inputs.
pub open spec fn walk_events(
    cfg: TrebloWalk,
    root: PathModel,
    root_is_dir: bool,
    inputs: Seq<InputModel>,
) -> Seq<EventModel> {
    let stack0: Seq<PathModel> = if root_is_dir {
        seq![root]
    } else {
        Seq::empty()
    };
    let run = walk_run(cfg.hasher_algo, cfg.blob_only, root, Seq::empty(), stack0, inputs);
    run.2 + finish_run(cfg.hasher_algo, cfg.blob_only, run.0, run.1).2
}

proof fn lemma_prepend_multiset(x: EntryModel, s: Seq<EntryModel>)
    ensures
        (seq![x] + s).to_multiset() == s.to_multiset().insert(x),
{
    vstd::seq_lib::lemma_seq_union_to_multiset_commutative(seq![x], s);
    assert(s + seq![x] =~= s.push(x));
    s.to_multiset_ensures();
}

/// A stable insertion keeps exactly the entries, as a multiset.
pub proof fn lemma_insert_sorted_multiset_pub(e: EntryModel, s: Seq<EntryModel>)
    ensures
        insert_sorted(e, s).to_multiset() == s.to_multiset().insert(e),
{
    lemma_insert_sorted_multiset(e, s);
}

proof fn lemma_insert_sorted_multiset(e: EntryModel, s: Seq<EntryModel>)
    ensures
        insert_sorted(e, s).to_multiset() == s.to_multiset().insert(e),
    decreases s.len(),
{
    if s.len() == 0 {
        assert(s =~= Seq::<EntryModel>::empty());
        assert(seq![e] =~= Seq::<EntryModel>::empty().push(e));
        Seq::<EntryModel>::empty().to_multiset_ensures();
        assert(Seq::<EntryModel>::empty().push(e).to_multiset()
            =~= Seq::<EntryModel>::empty().to_multiset().insert(e));
    } else if key_le(s[0], e) {
        lemma_insert_sorted_multiset(e, s.drop_first());
        lemma_prepend_multiset(s[0], insert_sorted(e, s.drop_first()));
        lemma_prepend_multiset(s[0], s.drop_first());
        assert(s =~= seq![s[0]] + s.drop_first());
        assert(insert_sorted(e, s).to_multiset() =~= s.to_multiset().insert(e));
    } else {
        assert(insert_sorted(e, s) =~= seq![e] + s);
        lemma_prepend_multiset(e, s);
    }
}

/// Sorting keeps exactly the entries it was given, as a multiset.
pub proof fn lemma_sort_entries_multiset(s: Seq<EntryModel>)
    ensures
        sort_entries(s).to_multiset() == s.to_multiset(),
    decreases s.len(),
{
    if s.len() > 0 {
        lemma_sort_entries_multiset(s.drop_last());
        lemma_insert_sorted_multiset(s.last(), sort_entries(s.drop_last()));
        s.drop_last().to_multiset_ensures();
        assert(s.drop_last().push(s.last()).to_multiset() =~= s.drop_last().to_multiset().insert(
            s.last(),
        ));
        assert(s.drop_last().push(s.last()) =~= s);
        assert(sort_entries(s) == insert_sorted(s.last(), sort_entries(s.drop_last())));
        assert(sort_entries(s).to_multiset() == s.to_multiset());
    } else {
        assert(s =~= Seq::<EntryModel>::empty());
        assert(sort_entries(s) == Seq::<EntryModel>::empty());
    }
}

/// The walk's configuration: which digest to compute, whether to stop after
/// blobs, and whether an unreadable entry is skipped rather than fatal.
pub struct TrebloWalk {
    pub hasher_algo: HashAlgo,
    pub blob_only: bool,
    pub no_error: bool,
}

impl Default for TrebloWalk {
    /// SHA-1, full tree resolution, strict errors.
    fn default() -> (w: TrebloWalk)
        ensures
            w.hasher_algo == HashAlgo::Sha1,
            !w.blob_only,
            !w.no_error,
    {
        TrebloWalk { hasher_algo: HashAlgo::Sha1, blob_only: false, no_error: false }
    }
}

impl TrebloWalk {
    pub fn new(hasher_algo: HashAlgo, blob_only: bool, no_error: bool) -> (w: TrebloWalk)
        ensures
            w.hasher_algo == hasher_algo,
            w.blob_only == blob_only,
            w.no_error == no_error,
    {
        TrebloWalk { hasher_algo, blob_only, no_error }
    }

    /// Begins one walk rooted at `root`; the driver is walk-scoped and not
    /// reusable across walks.
    pub fn start(&self, root: TreePath, root_is_dir: bool) -> (d: WalkDriver)
        ensures
            d.wf(),
            d.algo_model() == self.hasher_algo,
            d.blob_only_model() == self.blob_only,
            d.no_error_model() == self.no_error,
            d.map_model() == Seq::<SlotModel>::empty(),
            d.root_model() == root@,
            d.stack_model() == (if root_is_dir {
                seq![root@]
            } else {
                Seq::<PathModel>::empty()
            }),
    {
        let d = WalkDriver {
            algo: self.hasher_algo,
            blob_only: self.blob_only,
            no_error: self.no_error,
            resolving: Vec::new(),
            state: PathWalkState::new(root, root_is_dir),
        };
        proof {
            assert(d.map_model() =~= Seq::<SlotModel>::empty());
        }
        d
    }
}

/// One walk in progress: the resolving map of pending children and the
/// stack of still-open ancestors.
pub struct WalkDriver {
    algo: HashAlgo,
    blob_only: bool,
    no_error: bool,
    resolving: Vec<MapSlot>,
    state: PathWalkState,
}

impl WalkDriver {
    /// The digest algorithm this walk computes.
    pub closed spec fn algo_model(&self) -> HashAlgo {
        self.algo
    }

    /// Whether directories are resolved at all.
    pub closed spec fn blob_only_model(&self) -> bool {
        self.blob_only
    }

    /// Whether an unreadable entry is skipped rather than fatal.
    pub closed spec fn no_error_model(&self) -> bool {
        self.no_error
    }

    /// The pending children, in insertion order.
    pub closed spec fn map_model(&self) -> Seq<SlotModel> {
        self.resolving.deep_view()
    }

    /// The walk's root path.
    pub closed spec fn root_model(&self) -> PathModel {
        self.state.root_model()
    }

    /// The still-open ancestor directories, root first.
    pub closed spec fn stack_model(&self) -> Seq<PathModel> {
        self.state.stack_model()
    }

    /// Every pending entry carries a real Git mode.
    pub open spec fn wf(&self) -> bool {
        forall|i: int|
            0 <= i < self.map_model().len() ==> (#[trigger] self.map_model()[i]).entry.mode.wf()
    }

    /// Resolves one complete directory: collects its pending children,
    /// sorts them by Git's rule, hashes the tree object, replaces the
    /// children with the directory's own entry, and reports the tree event.
    fn resolve(&mut self, dir: &TreePath) -> (ev: WalkEvent)
        requires
            old(self).wf(),
        ensures
            final(self).wf(),
            final(self).algo_model() == old(self).algo_model(),
            final(self).blob_only_model() == old(self).blob_only_model(),
            final(self).no_error_model() == old(self).no_error_model(),
            final(self).root_model() == old(self).root_model(),
            final(self).stack_model() == old(self).stack_model(),
            final(self).map_model() == resolve_map(
                old(self).algo_model(),
                old(self).map_model(),
                dir@,
            ),
            ev.deep_view() == (EventModel {
                path: dir@,
                entry: resolve_entry(old(self).algo_model(), old(self).map_model(), dir@),
                is_tree: true,
            }),
    {
        let ghost map0 = self.map_model();
        let mut kept: Vec<MapSlot> = Vec::new();
        let mut children: Vec<TreeEntry> = Vec::new();
        let mut i: usize = 0;
        proof {
            assert(map0.take(0) =~= Seq::<SlotModel>::empty());
            assert(kept.deep_view() =~= slots_not_under(map0.take(0), dir@));
            assert(models_of(children@) =~= entries_of(slots_under(map0.take(0), dir@)));
        }
        while i < self.resolving.len()
            invariant
                i <= self.resolving@.len(),
                map0 == self.map_model(),
                forall|k: int| 0 <= k < map0.len() ==> (#[trigger] map0[k]).entry.mode.wf(),
                kept.deep_view() == slots_not_under(map0.take(i as int), dir@),
                models_of(children@) == entries_of(slots_under(map0.take(i as int), dir@)),
                forall|k: int| 0 <= k < children@.len() ==> (#[trigger] children@[k])@.mode.wf(),
                forall|k: int|
                    0 <= k < kept@.len() ==> (#[trigger] kept@[k]).deep_view().entry.mode.wf(),
            decreases self.resolving@.len() - i,
        {
            let slot = &self.resolving[i];
            proof {
                assert(slot.deep_view() == map0[i as int]);
                lemma_slots_under_append(map0.take(i as int), seq![map0[i as int]], dir@);
                assert(map0.take(i + 1) =~= map0.take(i as int) + seq![map0[i as int]]);
                assert(seq![map0[i as int]].drop_first() =~= Seq::<SlotModel>::empty());
                assert(slots_under(Seq::<SlotModel>::empty(), dir@)
                    =~= Seq::<SlotModel>::empty());
                assert(slots_not_under(Seq::<SlotModel>::empty(), dir@)
                    =~= Seq::<SlotModel>::empty());
            }
            let under = slot.path.starts_with(dir);
            if under {
                let ghost cpre = models_of(children@);
                children.push(slot.entry.dup());
                proof {
                    assert(slots_under(seq![map0[i as int]], dir@) =~= seq![map0[i as int]]);
                    assert(slots_not_under(seq![map0[i as int]], dir@)
                        =~= Seq::<SlotModel>::empty());
                    let su1 = slots_under(map0.take(i as int), dir@) + seq![map0[i as int]];
                    assert(slots_under(map0.take(i + 1), dir@) == su1);
                    assert(models_of(children@) =~= cpre + seq![map0[i as int].entry]);
                    assert(entries_of(su1) =~= cpre + seq![map0[i as int].entry]);
                    assert(models_of(children@) == entries_of(
                        slots_under(map0.take(i + 1), dir@),
                    ));
                    assert(kept.deep_view() =~= slots_not_under(map0.take(i + 1), dir@));
                }
            } else {
                kept.push(MapSlot { path: slot.path.dup(), entry: slot.entry.dup() });
                proof {
                    assert(slots_under(seq![map0[i as int]], dir@)
                        =~= Seq::<SlotModel>::empty());
                    assert(slots_not_under(seq![map0[i as int]], dir@) =~= seq![map0[i as int]]);
                    assert(models_of(children@) =~= entries_of(
                        slots_under(map0.take(i + 1), dir@),
                    ));
                    assert(kept.deep_view() =~= slots_not_under(map0.take(i + 1), dir@));
                }
            }
            i = i + 1;
        }
        proof {
            assert(map0.take(map0.len() as int) =~= map0);
        }
        let ghost cm0 = models_of(children@);
        proof {
            assert(cm0 == entries_of(slots_under(map0, dir@)));
            assert(forall|k: int| 0 <= k < cm0.len() ==> (#[trigger] cm0[k]).mode.wf());
        }
        let ghost kept_model = kept.deep_view();
        self.resolving = kept;
        let sorted = sort_tree_entries(children);
        proof {
            let sm = models_of(sorted@);
            lemma_sort_entries_multiset(cm0);
            cm0.to_multiset_ensures();
            sm.to_multiset_ensures();
            assert forall|k: int| 0 <= k < sorted@.len() implies (#[trigger] sorted@[k])@.mode.wf() by {
                assert(sm[k] == sorted@[k]@);
                assert(sm.contains(sm[k]));
                assert(sm.to_multiset().count(sm[k]) > 0);
                assert(cm0.contains(sm[k]));
                let j = choose|j: int| 0 <= j < cm0.len() && cm0[j] == sm[k];
                assert(cm0[j].mode.wf());
            }
        }
        let mut buf: Vec<u8> = Vec::new();
        tree_from_entries(&mut buf, &sorted);
        proof {
            assert(buf@ =~= tree_bytes(sort_entries(cm0)));
        }
        let digest = hash_object(self.algo, buf.as_slice());
        let name = dir.last_name();
        let entry = TreeEntry::new(FileMode::dir(), name, digest);
        proof {
            assert(entry@ == resolve_entry(old(self).algo_model(), map0, dir@));
        }
        let ev = WalkEvent { path: dir.dup(), entry: entry.dup(), is_tree: true };
        self.resolving.push(MapSlot { path: dir.dup(), entry });
        proof {
            assert(self.map_model() =~= resolve_map(old(self).algo_model(), map0, dir@));
            assert forall|k: int| 0 <= k < self.map_model().len() implies (#[trigger] self.map_model()[k]).entry.mode.wf() by {
                if k < kept_model.len() {
                    assert(self.map_model()[k] == kept_model[k]);
                } else {
                    assert(self.map_model()[k].entry.mode == FileMode::dir_mode());
                }
            }
        }
        ev
    }

    /// Resolves a run of directories in order, appending one tree event per
    /// directory.
    fn resolve_run(&mut self, dirs: &Vec<TreePath>, events: &mut Vec<WalkEvent>)
        requires
            old(self).wf(),
        ensures
            final(self).wf(),
            final(self).algo_model() == old(self).algo_model(),
            final(self).blob_only_model() == old(self).blob_only_model(),
            final(self).no_error_model() == old(self).no_error_model(),
            final(self).root_model() == old(self).root_model(),
            final(self).stack_model() == old(self).stack_model(),
            final(self).map_model() == resolve_all(
                old(self).algo_model(),
                old(self).map_model(),
                dirs.deep_view(),
            ).0,
            final(events).deep_view() == old(events).deep_view() + resolve_all(
                old(self).algo_model(),
                old(self).map_model(),
                dirs.deep_view(),
            ).1,
    {
        let ghost algo = self.algo_model();
        let ghost map1 = self.map_model();
        let ghost dm = dirs.deep_view();
        let ghost ev0 = events.deep_view();
        let ghost ra = resolve_all(algo, map1, dm);
        let mut i: usize = 0;
        proof {
            assert(dm.skip(0) =~= dm);
            assert(events.deep_view().take(ev0.len() as int) =~= ev0);
            assert(events.deep_view().skip(ev0.len() as int) =~= Seq::<EventModel>::empty());
            assert(Seq::<EventModel>::empty() + resolve_all(algo, map1, dm).1 =~= resolve_all(
                algo,
                map1,
                dm,
            ).1);
        }
        while i < dirs.len()
            invariant
                i <= dirs@.len(),
                self.wf(),
                dm == dirs.deep_view(),
                algo == old(self).algo_model(),
                map1 == old(self).map_model(),
                ra == resolve_all(algo, map1, dm),
                self.algo_model() == old(self).algo_model(),
                self.blob_only_model() == old(self).blob_only_model(),
                self.no_error_model() == old(self).no_error_model(),
                self.root_model() == old(self).root_model(),
                self.stack_model() == old(self).stack_model(),
                ra.0 == resolve_all(algo, self.map_model(), dm.skip(i as int)).0,
                ra.1 == events.deep_view().skip(ev0.len() as int) + resolve_all(
                    algo,
                    self.map_model(),
                    dm.skip(i as int),
                ).1,
                events.deep_view().take(ev0.len() as int) == ev0,
                events.deep_view().len() == ev0.len() + i,
            decreases dirs@.len() - i,
        {
            let ghost m_i = self.map_model();
            let ghost tev = events.deep_view().skip(ev0.len() as int);
            let ev = self.resolve(&dirs[i]);
            events.push(ev);
            proof {
                assert(dirs@[i as int]@ == dm[i as int]);
                assert(dm.skip(i as int)[0] == dm[i as int]);
                assert(dm.skip(i as int).drop_first() =~= dm.skip(i + 1));
                let step_entry = resolve_entry(algo, m_i, dm[i as int]);
                let m_next = resolve_map(algo, m_i, dm[i as int]);
                assert(self.map_model() == m_next);
                assert(resolve_all(algo, m_i, dm.skip(i as int)).0 == resolve_all(
                    algo,
                    m_next,
                    dm.skip(i + 1),
                ).0);
                assert(resolve_all(algo, m_i, dm.skip(i as int)).1 == seq![
                    EventModel { path: dm[i as int], entry: step_entry, is_tree: true },
                ] + resolve_all(algo, m_next, dm.skip(i + 1)).1);
                assert(events.deep_view().take(ev0.len() as int) =~= ev0);
                assert(events.deep_view().skip(ev0.len() as int) =~= tev + seq![
                    EventModel { path: dm[i as int], entry: step_entry, is_tree: true },
                ]);
                assert(tev + (seq![
                    EventModel { path: dm[i as int], entry: step_entry, is_tree: true },
                ] + resolve_all(algo, m_next, dm.skip(i + 1)).1) =~= (tev + seq![
                    EventModel { path: dm[i as int], entry: step_entry, is_tree: true },
                ]) + resolve_all(algo, m_next, dm.skip(i + 1)).1);
            }
            i = i + 1;
        }
        proof {
            assert(dm.skip(dm.len() as int) =~= Seq::<PathModel>::empty());
            assert(ra.1 == events.deep_view().skip(ev0.len() as int) + Seq::<
                EventModel,
            >::empty());
            assert(events.deep_view().skip(ev0.len() as int) + Seq::<EventModel>::empty()
                =~= events.deep_view().skip(ev0.len() as int));
            assert(events.deep_view() =~= events.deep_view().take(ev0.len() as int)
                + events.deep_view().skip(ev0.len() as int));
            assert(events.deep_view() == ev0 + ra.1);
        }
    }

    /// Feeds the next filesystem entry of the walk. A directory is never
    /// hashed at encounter time and produces nothing; any other entry is
    /// hashed as a blob over `content` (a symbolic link's raw target text,
    /// or the file's bytes), reported, and folded into the walk, resolving
    /// every directory the walk has now left.
    pub fn process_entry(&mut self, path: &TreePath, mode: FileMode, content: &[u8]) -> (events:
        Vec<WalkEvent>)
        requires
            old(self).wf(),
            mode.wf(),
            path@.len() > 0,
        ensures
            final(self).wf(),
            final(self).algo_model() == old(self).algo_model(),
            final(self).blob_only_model() == old(self).blob_only_model(),
            final(self).no_error_model() == old(self).no_error_model(),
            final(self).root_model() == old(self).root_model(),
            ({
                let st = walk_step(
                    old(self).algo_model(),
                    old(self).blob_only_model(),
                    old(self).root_model(),
                    old(self).map_model(),
                    old(self).stack_model(),
                    InputModel { path: path@, mode, content: content@ },
                );
                final(self).map_model() == st.0 && final(self).stack_model() == st.1
                    && events.deep_view() == st.2
            }),
    {
        let mut events: Vec<WalkEvent> = Vec::new();
        if mode.is_dir() {
            proof {
                assert(events.deep_view() =~= Seq::<EventModel>::empty());
            }
            return events;
        }
        let mut buf: Vec<u8> = Vec::new();
        blob_from_bytes(&mut buf, content);
        proof {
            assert(buf@ =~= blob_bytes(content@));
        }
        let digest = hash_object(self.algo, buf.as_slice());
        let name = path.last_name();
        let te = TreeEntry::new(mode, name, digest);
        let ghost be = blob_entry_model(self.algo_model(), path@, mode, content@);
        proof {
            assert(te@ == be);
        }
        events.push(WalkEvent { path: path.dup(), entry: te.dup(), is_tree: false });
        let ghost bev = EventModel { path: path@, entry: be, is_tree: false };
        proof {
            assert(events.deep_view() =~= seq![bev]);
        }
        if self.blob_only {
            return events;
        }
        self.resolving.push(MapSlot { path: path.dup(), entry: te });
        let ghost map1 = self.map_model();
        proof {
            assert(map1 =~= old(self).map_model().push(SlotModel { path: path@, entry: be }));
            assert forall|k: int| 0 <= k < map1.len() implies (#[trigger] map1[k]).entry.mode.wf() by {
                if k < old(self).map_model().len() {
                    assert(map1[k] == old(self).map_model()[k]);
                } else {
                    assert(map1[k].entry.mode == mode);
                }
            }
        }
        let dirs = self.state.process(Some(path));
        proof {
            assert(parent_of_item(item_model(Some(path))) == Some(path@.drop_last()));
            assert(dirs.deep_view() == process_resolved(
                old(self).stack_model(),
                Some(path@.drop_last()),
            ));
        }
        self.resolve_run(&dirs, &mut events);
        events
    }

    /// Decides what an entry-level error means for this walk: in lenient
    /// mode the entry is skipped and the walk goes on; otherwise the error
    /// is fatal and handed back to the caller.
    pub fn process_error(&mut self, err: WalkError) -> (r: Result<(), WalkError>)
        ensures
            *final(self) == *old(self),
            old(self).no_error_model() ==> r is Ok,
            !old(self).no_error_model() ==> (r matches Err(e) && e == err),
    {
        if self.no_error {
            Ok(())
        } else {
            Err(err)
        }
    }

    /// Ends the walk: resolves every still-open directory, the root last,
    /// and reports their tree events. With `blob_only` nothing is pending
    /// and nothing is produced.
    pub fn finish(&mut self) -> (events: Vec<WalkEvent>)
        requires
            old(self).wf(),
        ensures
            final(self).wf(),
            final(self).algo_model() == old(self).algo_model(),
            final(self).blob_only_model() == old(self).blob_only_model(),
            final(self).no_error_model() == old(self).no_error_model(),
            final(self).root_model() == old(self).root_model(),
            ({
                let st = finish_run(
                    old(self).algo_model(),
                    old(self).blob_only_model(),
                    old(self).map_model(),
                    old(self).stack_model(),
                );
                final(self).map_model() == st.0 && final(self).stack_model() == st.1
                    && events.deep_view() == st.2
            }),
    {
        let mut events: Vec<WalkEvent> = Vec::new();
        proof {
            assert(events.deep_view() =~= Seq::<EventModel>::empty());
        }
        if self.blob_only {
            return events;
        }
        let dirs = self.state.process(None);
        proof {
            assert(dirs.deep_view() == old(self).stack_model().reverse());
            assert(self.map_model() == old(self).map_model());
            assert(self.wf());
        }
        self.resolve_run(&dirs, &mut events);
        proof {
            assert(Seq::<EventModel>::empty() + resolve_all(
                old(self).algo_model(),
                old(self).map_model(),
                old(self).stack_model().reverse(),
            ).1 =~= resolve_all(
                old(self).algo_model(),
                old(self).map_model(),
                old(self).stack_model().reverse(),
            ).1);
        }
        events
    }
}

/// The paths of the tree events in an event stream, in order.
pub open spec fn tree_paths(evs: Seq<EventModel>) -> Seq<PathModel>
    decreases evs.len(),
{
    if evs.len() == 0 {
        Seq::empty()
    } else {
        (if evs[0].is_tree {
            seq![evs[0].path]
        } else {
            Seq::empty()
        }) + tree_paths(evs.drop_first())
    }
}

proof fn lemma_tree_paths_append(a: Seq<EventModel>, b: Seq<EventModel>)
    ensures
        tree_paths(a + b) == tree_paths(a) + tree_paths(b),
    decreases a.len(),
{
    if a.len() == 0 {
        assert(a + b =~= b);
        assert(tree_paths(a) + tree_paths(b) =~= tree_paths(b));
    } else {
        lemma_tree_paths_append(a.drop_first(), b);
        assert((a + b)[0] == a[0]);
        assert((a + b).drop_first() =~= a.drop_first() + b);
        assert(tree_paths(a + b) =~= tree_paths(a) + tree_paths(b));
    }
}

proof fn lemma_tree_paths_all_trees(evs: Seq<EventModel>, dirs: Seq<PathModel>)
    requires
        evs.len() == dirs.len(),
        forall|k: int| 0 <= k < evs.len() ==> (#[trigger] evs[k]).is_tree && evs[k].path == dirs[k],
    ensures
        tree_paths(evs) == dirs,
    decreases evs.len(),
{
    if evs.len() == 0 {
        assert(tree_paths(evs) =~= dirs);
    } else {
        lemma_tree_paths_all_trees(evs.drop_first(), dirs.drop_first());
        assert(tree_paths(evs) =~= dirs);
    }
}

proof fn lemma_resolve_all_tree_paths(algo: HashAlgo, map: Seq<SlotModel>, dirs: Seq<PathModel>)
    ensures
        tree_paths(resolve_all(algo, map, dirs).1) == dirs,
{
    lemma_resolve_all_one_event_per_dir(algo, map, dirs);
    lemma_tree_paths_all_trees(resolve_all(algo, map, dirs).1, dirs);
}

/// The parent of the last of the inputs, or `q` before any input.
pub open spec fn last_parent(q: PathModel, inputs: Seq<InputModel>) -> PathModel {
    if inputs.len() == 0 {
        q
    } else {
        inputs.last().path.drop_last()
    }
}

/// The paths the inputs carry, in order.
pub open spec fn input_paths(inputs: Seq<InputModel>) -> Seq<PathModel> {
    inputs.map_values(|inp: InputModel| inp.path)
}

/// Throughout a full-resolution run over files strictly under the root, the
/// ancestor stack keeps tracking the parent of the most recent path, and
/// the run's tree events name, in order, exactly the directories of the
/// resolution sequence.
pub proof fn lemma_walk_run_tracks_parent(
    algo: HashAlgo,
    root: PathModel,
    map: Seq<SlotModel>,
    q: PathModel,
    inputs: Seq<InputModel>,
)
    requires
        is_path_prefix(root, q),
        forall|i: int|
            0 <= i < inputs.len() ==> (#[trigger] inputs[i]).mode != FileMode::dir_mode()
                && is_path_prefix(root, inputs[i].path) && inputs[i].path.len() > root.len(),
    ensures
        walk_run(algo, false, root, map, prefix_range(root, q), inputs).1 == prefix_range(
            root,
            last_parent(q, inputs),
        ),
        tree_paths(walk_run(algo, false, root, map, prefix_range(root, q), inputs).2)
            + prefix_range(root, last_parent(q, inputs)).reverse() == run_resolved(
            root,
            q,
            input_paths(inputs),
        ),
    decreases inputs.len(),
{
    let run = walk_run(algo, false, root, map, prefix_range(root, q), inputs);
    if inputs.len() == 0 {
        assert(run.2 =~= Seq::<EventModel>::empty());
        assert(tree_paths(run.2) =~= Seq::<PathModel>::empty());
        assert(tree_paths(run.2) + prefix_range(root, q).reverse() =~= prefix_range(
            root,
            q,
        ).reverse());
        assert(input_paths(inputs) =~= Seq::<PathModel>::empty());
    } else {
        let p0 = inputs[0].path;
        let parent = p0.drop_last();
        assert(is_path_prefix(root, parent)) by {
            assert(parent.take(root.len() as int) =~= p0.take(root.len() as int));
        }
        lemma_stack_tracks_parent(root, q, parent);
        let st = walk_step(algo, false, root, map, prefix_range(root, q), inputs[0]);
        let dirs = process_resolved(prefix_range(root, q), Some(parent));
        assert(st.1 == prefix_range(root, parent));
        lemma_walk_run_tracks_parent(algo, root, st.0, parent, inputs.drop_first());
        let rest = walk_run(algo, false, root, st.0, prefix_range(root, parent), inputs.drop_first());
        assert(run.1 == rest.1);
        assert(last_parent(q, inputs) == last_parent(parent, inputs.drop_first())) by {
            if inputs.drop_first().len() > 0 {
                assert(inputs.drop_first().last() == inputs.last());
            }
        }
        let be = blob_entry_model(algo, p0, inputs[0].mode, inputs[0].content);
        let bev = EventModel { path: p0, entry: be, is_tree: false };
        let map1 = map.push(SlotModel { path: p0, entry: be });
        assert(st.2 == seq![bev] + resolve_all(algo, map1, dirs).1);
        lemma_resolve_all_tree_paths(algo, map1, dirs);
        lemma_tree_paths_append(seq![bev], resolve_all(algo, map1, dirs).1);
        assert(seq![bev].drop_first() =~= Seq::<EventModel>::empty());
        assert(tree_paths(Seq::<EventModel>::empty()) =~= Seq::<PathModel>::empty());
        assert(tree_paths(seq![bev]) =~= Seq::<PathModel>::empty());
        assert(tree_paths(st.2) =~= dirs);
        lemma_tree_paths_append(st.2, rest.2);
        assert(run.2 == st.2 + rest.2);
        assert(input_paths(inputs).drop_first() =~= input_paths(inputs.drop_first()));
        assert(input_paths(inputs)[0] == p0);
        assert(run_resolved(root, q, input_paths(inputs)) == dirs + run_resolved(
            root,
            parent,
            input_paths(inputs.drop_first()),
        ));
        assert(tree_paths(run.2) + prefix_range(root, last_parent(q, inputs)).reverse()
            =~= run_resolved(root, q, input_paths(inputs)));
    }
}

/// The end-to-end guarantee of the streaming Merkle walk: over a
/// non-revisiting traversal of files strictly under a directory root, the
/// whole walk's tree events name exactly the directories of the resolution
/// sequence, and no directory is resolved twice.
pub proof fn lemma_walk_resolves_each_directory_once(
    cfg: TrebloWalk,
    root: PathModel,
    inputs: Seq<InputModel>,
)
    requires
        !cfg.blob_only,
        traversal_wf(root, root, input_paths(inputs)),
        forall|i: int|
            0 <= i < inputs.len() ==> (#[trigger] inputs[i]).mode != FileMode::dir_mode(),
    ensures
        tree_paths(walk_events(cfg, root, true, inputs)) == run_resolved(
            root,
            root,
            input_paths(inputs),
        ),
        forall|i: int, j: int|
            0 <= i < j < tree_paths(walk_events(cfg, root, true, inputs)).len()
                ==> #[trigger] tree_paths(walk_events(cfg, root, true, inputs))[i]
                != #[trigger] tree_paths(walk_events(cfg, root, true, inputs))[j],
{
    assert(is_path_prefix(root, root)) by {
        assert(root.take(root.len() as int) =~= root);
    }
    assert(prefix_range(root, root) =~= seq![root]) by {
        assert(prefix_range(root, root).len() == 1);
        assert(prefix_range(root, root)[0] == root.take(root.len() as int));
        assert(root.take(root.len() as int) =~= root);
    }
    assert forall|i: int| 0 <= i < inputs.len() implies is_path_prefix(
        root,
        (#[trigger] inputs[i]).path,
    ) && inputs[i].path.len() > root.len() by {
        assert(input_paths(inputs)[i] == inputs[i].path);
    }
    lemma_walk_run_tracks_parent(cfg.hasher_algo, root, Seq::empty(), root, inputs);
    let run = walk_run(
        cfg.hasher_algo,
        false,
        root,
        Seq::empty(),
        prefix_range(root, root),
        inputs,
    );
    let lp = last_parent(root, inputs);
    let fin = finish_run(cfg.hasher_algo, false, run.0, run.1);
    assert(fin.2 == resolve_all(cfg.hasher_algo, run.0, prefix_range(root, lp).reverse()).1);
    lemma_resolve_all_tree_paths(cfg.hasher_algo, run.0, prefix_range(root, lp).reverse());
    lemma_tree_paths_append(run.2, fin.2);
    assert(walk_events(cfg, root, true, inputs) == run.2 + fin.2);
    assert(tree_paths(walk_events(cfg, root, true, inputs)) == run_resolved(
        root,
        root,
        input_paths(inputs),
    ));
    crate::path::lemma_directories_resolve_once(root, root, input_paths(inputs));
}

} // verus!
