//! Git's exact binary object framing: file modes, blob and tree payloads,
//! and the header `"<type> <decimal size>\0"` that precedes each payload.

use vstd::prelude::*;
use vstd::string::StrSliceExecFns;
use vstd::string::StringSliceAdditionalSpecFns;
use vstd::utf8::encode_utf8;

verus! {

/// Appends every byte of the slice, in order.
pub fn push_bytes(buf: &mut Vec<u8>, bytes: &[u8])
    ensures
        final(buf)@ == old(buf)@ + bytes@,
{
    let mut i: usize = 0;
    while i < bytes.len()
        invariant
            i <= bytes.len(),
            buf@ == old(buf)@ + bytes@.take(i as int),
        decreases bytes.len() - i,
    {
        buf.push(bytes[i]);
        proof {
            assert(bytes@.take(i + 1) =~= bytes@.take(i as int) + seq![bytes@[i as int]]);
            assert(buf@ =~= old(buf)@ + bytes@.take(i + 1));
        }
        i = i + 1;
    }
    proof {
        assert(bytes@.take(bytes@.len() as int) =~= bytes@);
    }
}

/// A Git file mode: one of directory, regular, executable or symlink,
/// carried as the octal-equivalent integer Git encodes.
#[derive(Clone, Copy, Debug, PartialEq, Eq, Structural)]
pub struct FileMode(pub i32);

impl FileMode {
    /// The mode integer for a directory, `40000` in octal.
    pub open spec fn dir_mode() -> FileMode {
        FileMode(0o40000)
    }

    /// The mode integer for a regular file, `100644` in octal.
    pub open spec fn regular_mode() -> FileMode {
        FileMode(0o100644)
    }

    /// The mode integer for an executable file, `100755` in octal.
    pub open spec fn executable_mode() -> FileMode {
        FileMode(0o100755)
    }

    /// The mode integer for a symbolic link, `120000` in octal.
    pub open spec fn symlink_mode() -> FileMode {
        FileMode(0o120000)
    }

    /// A mode is exactly one of the four Git encodes.
    pub open spec fn wf(self) -> bool {
        self == FileMode::dir_mode() || self == FileMode::regular_mode() || self
            == FileMode::executable_mode() || self == FileMode::symlink_mode()
    }

    /// The raw mode integer.
    pub open spec fn value(self) -> int {
        self.0 as int
    }

    pub fn dir() -> (m: FileMode)
        ensures
            m == FileMode::dir_mode(),
    {
        FileMode(0o40000)
    }

    pub fn regular() -> (m: FileMode)
        ensures
            m == FileMode::regular_mode(),
    {
        FileMode(0o100644)
    }

    pub fn executable() -> (m: FileMode)
        ensures
            m == FileMode::executable_mode(),
    {
        FileMode(0o100755)
    }

    pub fn symlink() -> (m: FileMode)
        ensures
            m == FileMode::symlink_mode(),
    {
        FileMode(0o120000)
    }

    /// Which mode an entry's metadata denotes: directory wins, then symlink,
    /// then any execute bit, then regular.
    pub open spec fn mode_from_parts(is_dir: bool, is_symlink: bool, is_executable: bool) -> FileMode {
        if is_dir {
            FileMode::dir_mode()
        } else if is_symlink {
            FileMode::symlink_mode()
        } else if is_executable {
            FileMode::executable_mode()
        } else {
            FileMode::regular_mode()
        }
    }

    /// Classifies an entry from its metadata facts, in the fixed precedence
    /// directory, then symlink, then executable, then regular.
    pub fn from_parts(is_dir: bool, is_symlink: bool, is_executable: bool) -> (m: FileMode)
        ensures
            m == FileMode::mode_from_parts(is_dir, is_symlink, is_executable),
            m.wf(),
    {
        if is_dir {
            FileMode::dir()
        } else if is_symlink {
            FileMode::symlink()
        } else if is_executable {
            FileMode::executable()
        } else {
            FileMode::regular()
        }
    }

    /// The Git-style octal-equivalent integer, for external formatting.
    pub fn as_i32(&self) -> (r: i32)
        ensures
            r == self.value(),
    {
        self.0
    }

    /// Whether this is the directory mode.
    pub fn is_dir(&self) -> (r: bool)
        ensures
            r == (*self == FileMode::dir_mode()),
    {
        *self == FileMode::dir()
    }
}

/// The ASCII decimal digits of a number, no sign, no leading zero except for
/// zero itself.
pub open spec fn dec_digits(n: nat) -> Seq<u8>
    decreases n,
{
    if n < 10 {
        seq![(48 + n) as u8]
    } else {
        dec_digits(n / 10) + seq![(48 + n % 10) as u8]
    }
}

/// The ASCII octal digits of a number, no sign, no leading zero except for
/// zero itself.
pub open spec fn oct_digits(n: nat) -> Seq<u8>
    decreases n,
{
    if n < 8 {
        seq![(48 + n) as u8]
    } else {
        oct_digits(n / 8) + seq![(48 + n % 8) as u8]
    }
}

/// Appends the decimal rendering of `n`.
pub fn push_dec(buf: &mut Vec<u8>, n: usize)
    ensures
        final(buf)@ == old(buf)@ + dec_digits(n as nat),
    decreases n,
{
    if n >= 10 {
        push_dec(buf, n / 10);
    }
    buf.push(48 + (n % 10) as u8);
    proof {
        if n < 10 {
            assert(buf@ =~= old(buf)@ + dec_digits(n as nat));
        } else {
            assert(buf@ =~= old(buf)@ + (dec_digits(n as nat / 10) + seq![
                (48 + n as nat % 10) as u8,
            ]));
        }
    }
}

/// Appends the octal rendering of `n`.
pub fn push_oct(buf: &mut Vec<u8>, n: u32)
    ensures
        final(buf)@ == old(buf)@ + oct_digits(n as nat),
    decreases n,
{
    if n >= 8 {
        push_oct(buf, n / 8);
    }
    buf.push(48 + (n % 8) as u8);
    proof {
        if n < 8 {
            assert(buf@ =~= old(buf)@ + oct_digits(n as nat));
        } else {
            assert(buf@ =~= old(buf)@ + (oct_digits(n as nat / 8) + seq![
                (48 + n as nat % 8) as u8,
            ]));
        }
    }
}

/// The four ASCII bytes of the tag `blob`.
pub open spec fn blob_tag() -> Seq<u8> {
    seq![98u8, 108u8, 111u8, 98u8]
}

/// The four ASCII bytes of the tag `tree`.
pub open spec fn tree_tag() -> Seq<u8> {
    seq![116u8, 114u8, 101u8, 101u8]
}

/// An object header: the type tag, one space, the payload size in ASCII
/// decimal, and a NUL.
pub open spec fn header_bytes(tag: Seq<u8>, size: nat) -> Seq<u8> {
    tag + seq![32u8] + dec_digits(size) + seq![0u8]
}

/// Writes `"<type> <decimal size>\0"` and returns how many bytes that was.
pub fn object_header(buf: &mut Vec<u8>, type_tag: &[u8], size: usize) -> (n: usize)
    ensures
        final(buf)@ == old(buf)@ + header_bytes(type_tag@, size as nat),
        n == header_bytes(type_tag@, size as nat).len(),
{
    let start = buf.len();
    push_bytes(buf, type_tag);
    buf.push(32);
    push_dec(buf, size);
    buf.push(0);
    proof {
        assert(buf@ =~= old(buf)@ + header_bytes(type_tag@, size as nat));
    }
    buf.len() - start
}

fn blob_tag_vec() -> (v: Vec<u8>)
    ensures
        v@ == blob_tag(),
{
    let mut v: Vec<u8> = Vec::new();
    v.push(98);
    v.push(108);
    v.push(111);
    v.push(98);
    proof {
        assert(v@ =~= blob_tag());
    }
    v
}

fn tree_tag_vec() -> (v: Vec<u8>)
    ensures
        v@ == tree_tag(),
{
    let mut v: Vec<u8> = Vec::new();
    v.push(116);
    v.push(114);
    v.push(101);
    v.push(101);
    proof {
        assert(v@ =~= tree_tag());
    }
    v
}

/// A whole blob object: header over the content length, then the content
/// verbatim.
pub open spec fn blob_bytes(content: Seq<u8>) -> Seq<u8> {
    header_bytes(blob_tag(), content.len()) + content
}

/// Serializes a blob object over content whose length is known up front,
/// returning how many bytes were written.
pub fn blob_from_bytes(buf: &mut Vec<u8>, content: &[u8]) -> (n: usize)
    ensures
        final(buf)@ == old(buf)@ + blob_bytes(content@),
        n == blob_bytes(content@).len(),
{
    let start = buf.len();
    let tag = blob_tag_vec();
    object_header(buf, tag.as_slice(), content.len());
    push_bytes(buf, content);
    proof {
        assert(buf@ =~= old(buf)@ + blob_bytes(content@));
    }
    buf.len() - start
}

/// The raw target text of a symbolic link: its path components joined by
/// `/`, in UTF-8.
pub open spec fn joined_target_bytes(parts: Seq<Seq<char>>) -> Seq<u8>
    decreases parts.len(),
{
    if parts.len() == 0 {
        Seq::empty()
    } else if parts.len() == 1 {
        encode_utf8(parts[0])
    } else {
        encode_utf8(parts[0]) + seq![47u8] + joined_target_bytes(parts.drop_first())
    }
}

pub proof fn lemma_joined_target_append(a: Seq<Seq<char>>, b: Seq<Seq<char>>)
    requires
        a.len() > 0,
        b.len() > 0,
    ensures
        joined_target_bytes(a + b) == joined_target_bytes(a) + seq![47u8] + joined_target_bytes(b),
    decreases a.len(),
{
    if a.len() == 1 {
        assert((a + b)[0] == a[0]);
        assert((a + b).drop_first() =~= b);
        assert(joined_target_bytes(a + b) =~= joined_target_bytes(a) + seq![47u8]
            + joined_target_bytes(b));
    } else {
        lemma_joined_target_append(a.drop_first(), b);
        assert((a + b)[0] == a[0]);
        assert((a + b).drop_first() =~= a.drop_first() + b);
        assert(joined_target_bytes(a + b) =~= joined_target_bytes(a) + seq![47u8]
            + joined_target_bytes(b));
    }
}

/// Joins a symbolic link target's components with `/` into the payload the
/// blob is hashed over.
pub fn link_target_bytes(parts: &Vec<String>) -> (r: Vec<u8>)
    ensures
        r@ == joined_target_bytes(parts.deep_view()),
{
    let mut r: Vec<u8> = Vec::new();
    let mut i: usize = 0;
    while i < parts.len()
        invariant
            i <= parts.len(),
            r@ == joined_target_bytes(parts.deep_view().take(i as int)),
        decreases parts.len() - i,
    {
        if i != 0 {
            r.push(47);
        }
        push_bytes(&mut r, parts[i].as_str().as_bytes());
        proof {
            let dv = parts.deep_view();
            assert(dv[i as int] == parts@[i as int]@);
            assert(dv.take(i + 1) =~= dv.take(i as int) + seq![dv[i as int]]);
            if i == 0 {
                assert(joined_target_bytes(dv.take(1)) == encode_utf8(dv[0]));
                assert(r@ =~= joined_target_bytes(dv.take(1)));
            } else {
                lemma_joined_target_append(dv.take(i as int), seq![dv[i as int]]);
                assert(joined_target_bytes(seq![dv[i as int]]) == encode_utf8(dv[i as int]));
                assert(r@ =~= joined_target_bytes(dv.take(i + 1)));
            }
        }
        i = i + 1;
    }
    proof {
        assert(parts.deep_view().take(parts.deep_view().len() as int) =~= parts.deep_view());
    }
    r
}

/// What one tree child is, mathematically: a mode, a text name and raw
/// digest bytes.
pub ghost struct EntryModel {
    pub mode: FileMode,
    pub name: Seq<char>,
    pub digest: Seq<u8>,
}

/// One child reference inside a parent tree: the child's mode, its basename
/// and its raw digest bytes.
pub struct TreeEntry {
    pub file_mode: FileMode,
    pub name: String,
    pub digest: Vec<u8>,
}

impl View for TreeEntry {
    type V = EntryModel;

    open spec fn view(&self) -> EntryModel {
        EntryModel { mode: self.file_mode, name: self.name@, digest: self.digest@ }
    }
}

impl DeepView for TreeEntry {
    type V = EntryModel;

    open spec fn deep_view(&self) -> EntryModel {
        self.view()
    }
}

impl EntryModel {
    /// A sound entry: a real Git mode and a name free of the separator and
    /// the NUL that delimit it inside the encoding.
    pub open spec fn wf(self) -> bool {
        self.mode.wf() && forall|i: int|
            0 <= i < self.name.len() ==> (#[trigger] self.name[i]) as int != 0 && self.name[i] as int
                != 47
    }
}

impl TreeEntry {
    pub fn new(file_mode: FileMode, name: String, digest: Vec<u8>) -> (e: TreeEntry)
        ensures
            e@ == (EntryModel { mode: file_mode, name: name@, digest: digest@ }),
    {
        TreeEntry { file_mode, name, digest }
    }

    /// An identical entry, field for field.
    pub fn dup(&self) -> (e: TreeEntry)
        ensures
            e@ == self@,
    {
        let e = TreeEntry {
            file_mode: self.file_mode,
            name: self.name.clone(),
            digest: clone_bytes(&self.digest),
        };
        e
    }

    /// Serializes this entry as `"<octal mode> <name>\0<raw digest>"`,
    /// returning how many bytes that was.
    pub fn bytes(&self, buf: &mut Vec<u8>) -> (n: usize)
        requires
            self.file_mode.wf(),
        ensures
            final(buf)@ == old(buf)@ + entry_bytes(self@),
            n == entry_bytes(self@).len(),
    {
        tree_entry(buf, self.file_mode, self.name.as_str(), self.digest.as_slice())
    }
}

/// Copies a byte vector exactly.
pub fn clone_bytes(v: &Vec<u8>) -> (r: Vec<u8>)
    ensures
        r@ == v@,
{
    let mut r: Vec<u8> = Vec::new();
    push_bytes(&mut r, v.as_slice());
    proof {
        assert(Seq::<u8>::empty() + v@ =~= v@);
    }
    r
}

/// One serialized tree child: octal mode, a space, the UTF-8 name, a NUL,
/// then the raw digest bytes.
pub open spec fn entry_bytes(e: EntryModel) -> Seq<u8> {
    oct_digits(e.mode.value() as nat) + seq![32u8] + encode_utf8(e.name) + seq![0u8] + e.digest
}

/// Serializes one tree child, returning how many bytes were written.
pub fn tree_entry(buf: &mut Vec<u8>, file_mode: FileMode, name: &str, digest: &[u8]) -> (n: usize)
    requires
        file_mode.wf(),
    ensures
        final(buf)@ == old(buf)@ + entry_bytes(
            EntryModel { mode: file_mode, name: name@, digest: digest@ },
        ),
        n == entry_bytes(EntryModel { mode: file_mode, name: name@, digest: digest@ }).len(),
{
    let start = buf.len();
    push_oct(buf, file_mode.as_i32() as u32);
    buf.push(32);
    push_bytes(buf, name.as_bytes());
    buf.push(0);
    push_bytes(buf, digest);
    proof {
        assert(buf@ =~= old(buf)@ + entry_bytes(
            EntryModel { mode: file_mode, name: name@, digest: digest@ },
        ));
    }
    buf.len() - start
}

/// The models of a sequence of entries.
pub open spec fn models_of(s: Seq<TreeEntry>) -> Seq<EntryModel> {
    s.map_values(|e: TreeEntry| e@)
}

/// A tree payload: each child's serialization, in the order given.
pub open spec fn tree_payload(entries: Seq<EntryModel>) -> Seq<u8>
    decreases entries.len(),
{
    if entries.len() == 0 {
        Seq::empty()
    } else {
        entry_bytes(entries[0]) + tree_payload(entries.drop_first())
    }
}

pub proof fn lemma_tree_payload_append(a: Seq<EntryModel>, b: Seq<EntryModel>)
    ensures
        tree_payload(a + b) == tree_payload(a) + tree_payload(b),
    decreases a.len(),
{
    if a.len() == 0 {
        assert(a + b =~= b);
        assert(tree_payload(a) + tree_payload(b) =~= tree_payload(b));
    } else {
        lemma_tree_payload_append(a.drop_first(), b);
        assert((a + b)[0] == a[0]);
        assert((a + b).drop_first() =~= a.drop_first() + b);
        assert(tree_payload(a + b) =~= tree_payload(a) + tree_payload(b));
    }
}

/// A whole tree object: header over the payload length, then the payload.
/// The caller must already have sorted the entries by Git's rule.
pub open spec fn tree_bytes(entries: Seq<EntryModel>) -> Seq<u8> {
    header_bytes(tree_tag(), tree_payload(entries).len()) + tree_payload(entries)
}

/// Serializes a whole tree object from entries the caller has sorted,
/// returning how many bytes were written.
pub fn tree_from_entries(buf: &mut Vec<u8>, entries: &Vec<TreeEntry>) -> (n: usize)
    requires
        forall|i: int| 0 <= i < entries@.len() ==> (#[trigger] entries@[i])@.mode.wf(),
    ensures
        final(buf)@ == old(buf)@ + tree_bytes(models_of(entries@)),
        n == tree_bytes(models_of(entries@)).len(),
{
    let start = buf.len();
    let mut payload: Vec<u8> = Vec::new();
    let mut i: usize = 0;
    while i < entries.len()
        invariant
            i <= entries.len(),
            payload@ == tree_payload(models_of(entries@.take(i as int))),
            forall|k: int| 0 <= k < entries@.len() ==> (#[trigger] entries@[k])@.mode.wf(),
        decreases entries.len() - i,
    {
        entries[i].bytes(&mut payload);
        proof {
            assert(models_of(entries@.take(i + 1)) =~= models_of(entries@.take(i as int)) + seq![
                entries@[i as int]@,
            ]);
            lemma_tree_payload_append(
                models_of(entries@.take(i as int)),
                seq![entries@[i as int]@],
            );
            assert(seq![entries@[i as int]@].drop_first() =~= Seq::<EntryModel>::empty());
            assert(tree_payload(Seq::<EntryModel>::empty()) =~= Seq::<u8>::empty());
            assert(tree_payload(seq![entries@[i as int]@]) =~= entry_bytes(entries@[i as int]@));
            assert(payload@ =~= tree_payload(models_of(entries@.take(i + 1))));
        }
        i = i + 1;
    }
    proof {
        assert(entries@.take(entries@.len() as int) =~= entries@);
    }
    let tag = tree_tag_vec();
    object_header(buf, tag.as_slice(), payload.len());
    push_bytes(buf, payload.as_slice());
    proof {
        assert(buf@ =~= old(buf)@ + tree_bytes(models_of(entries@)));
    }
    buf.len() - start
}

} // verus!
