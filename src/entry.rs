use vstd::prelude::*;

verus! {

/// The kind of an archive entry, as its header's type flag gives it.
#[derive(Clone, Copy, Debug, PartialEq, Eq, Structural)]
pub enum EntryKind {
    Regular,
    Link,
    Symlink,
    Char,
    Block,
    Directory,
    Fifo,
    Continuous,
    GnuLongName,
    GnuLongLink,
    GnuSparse,
    Other,
}

/// The fields of an entry header that the splitter and the listing read.
#[derive(Clone, Debug)]
pub struct EntryHeader {
    /// The path, `/`-separated whatever the host.
    pub path: Vec<u8>,
    pub kind: EntryKind,
    /// The size that the header declares.
    pub size: u64,
    /// The number of data bytes that follow the header in the archive.
    pub data_size: u64,
    pub mode: u32,
    pub user: Vec<u8>,
    pub group: Vec<u8>,
    /// Modification time, in seconds since the epoch.
    pub mtime: u64,
    pub device_major: u32,
    pub device_minor: u32,
    /// The target of a hard or symbolic link.
    pub link: Option<Vec<u8>>,
}

/// The size of one header block.
pub const TAR_HEADER_SIZE: u64 = 512;

/// The byte `/`.
pub const SLASH: u8 = 47;

pub open spec fn is_dir_kind(k: EntryKind) -> bool {
    k == EntryKind::Directory
}

/// The letter that a listing shows for an entry's kind.
pub open spec fn type_char_of(kind: EntryKind, path: Seq<u8>) -> char {
    match kind {
        EntryKind::Regular | EntryKind::Continuous | EntryKind::GnuSparse => {
            if path.len() > 0 && path.last() == SLASH {
                'd'
            } else {
                '-'
            }
        },
        EntryKind::Link => 'h',
        EntryKind::Symlink => 'l',
        EntryKind::Char => 'c',
        EntryKind::Block => 'b',
        EntryKind::Directory => 'd',
        EntryKind::Fifo => 'p',
        EntryKind::GnuLongName | EntryKind::GnuLongLink => 'L',
        EntryKind::Other => '?',
    }
}

/// The letter of an entry's kind in a listing; an old-style regular entry
/// whose path ends in `/` is a directory.
pub fn entry_type_char(header: &EntryHeader) -> (r: char)
    ensures
        r == type_char_of(header.kind, header.path@),
{
    match header.kind {
        EntryKind::Regular | EntryKind::Continuous | EntryKind::GnuSparse => {
            let n = header.path.len();
            if n > 0 && header.path[n - 1] == SLASH {
                'd'
            } else {
                '-'
            }
        },
        EntryKind::Link => 'h',
        EntryKind::Symlink => 'l',
        EntryKind::Char => 'c',
        EntryKind::Block => 'b',
        EntryKind::Directory => 'd',
        EntryKind::Fifo => 'p',
        EntryKind::GnuLongName | EntryKind::GnuLongLink => 'L',
        EntryKind::Other => '?',
    }
}

impl EntryHeader {
    /// Whether the entry is a directory.
    pub fn is_dir(&self) -> (r: bool)
        ensures
            r == is_dir_kind(self.kind),
    {
        match self.kind {
            EntryKind::Directory => true,
            _ => false,
        }
    }
}

/// The index of the last `/` of `p`, or -1 where it has none.
pub open spec fn last_slash(p: Seq<u8>) -> int
    decreases p.len(),
{
    if p.len() == 0 {
        -1
    } else if p.last() == SLASH {
        p.len() - 1
    } else {
        last_slash(p.drop_last())
    }
}

/// The path without one trailing `/`.
pub open spec fn strip_trailing_slash(path: Seq<u8>) -> Seq<u8> {
    if path.len() > 0 && path.last() == SLASH {
        path.drop_last()
    } else {
        path
    }
}

/// The directory that holds `path`, with its trailing `/`; none for a
/// path at the top.
pub open spec fn parent_dir(path: Seq<u8>) -> Option<Seq<u8>> {
    let p = strip_trailing_slash(path);
    let i = last_slash(p);
    if i < 0 {
        None
    } else {
        Some(p.subrange(0, i + 1))
    }
}

/// A parent directory is never empty: it ends in `/`.
pub proof fn lemma_parent_dir_nonempty(path: Seq<u8>)
    ensures
        parent_dir(path) is Some ==> parent_dir(path).unwrap().len() > 0,
{
    lemma_last_slash(strip_trailing_slash(path));
}

proof fn lemma_last_slash(p: Seq<u8>)
    ensures
        -1 <= last_slash(p) < p.len(),
        last_slash(p) >= 0 ==> p[last_slash(p)] == SLASH,
        forall|j: int| last_slash(p) < j < p.len() ==> p[j] != SLASH,
    decreases p.len(),
{
    if p.len() > 0 && p.last() != SLASH {
        let q = p.drop_last();
        lemma_last_slash(q);
        assert forall|j: int| last_slash(p) < j < p.len() implies p[j] != SLASH by {
            if j < q.len() {
                assert(p[j] == q[j]);
            }
        }
    }
}

/// The parent directory of `path`, byte by byte: the trailing `/` is
/// dropped, and what precedes the last `/` that remains, that `/`
/// included, is the parent.
pub fn parent_dir_of(path: &[u8]) -> (r: Option<Vec<u8>>)
    ensures
        r.is_none() == parent_dir(path@).is_none(),
        r.is_some() ==> r.unwrap()@ == parent_dir(path@).unwrap(),
{
    let ghost p = strip_trailing_slash(path@);
    let mut n = path.len();
    if n > 0 && path[n - 1] == SLASH {
        n = n - 1;
    }
    assert(p == path@.subrange(0, n as int));
    proof {
        lemma_last_slash(p);
    }
    let mut i = n;
    while i > 0
        invariant
            i <= n,
            n <= path@.len(),
            p == path@.subrange(0, n as int),
            p == strip_trailing_slash(path@),
            forall|j: int| i <= j < n ==> p[j] != SLASH,
            -1 <= last_slash(p) < p.len(),
            last_slash(p) >= 0 ==> p[last_slash(p)] == SLASH,
            forall|j: int| last_slash(p) < j < p.len() ==> p[j] != SLASH,
        decreases i,
    {
        if path[i - 1] == SLASH {
            assert(p[i - 1] == path@[i - 1]);
            assert(last_slash(p) == i - 1);
            let mut d: Vec<u8> = Vec::new();
            let mut k: usize = 0;
            while k < i
                invariant
                    k <= i,
                    i <= n,
                    n <= path@.len(),
                    d@ == path@.subrange(0, k as int),
                    p == path@.subrange(0, n as int),
                    p == strip_trailing_slash(path@),
                    last_slash(p) == i - 1,
                decreases i - k,
            {
                d.push(path[k]);
                k = k + 1;
                assert(d@ =~= path@.subrange(0, k as int));
            }
            assert(d@ =~= p.subrange(0, i as int));
            return Some(d);
        }
        assert(p[i - 1] == path@[i - 1]);
        i = i - 1;
    }
    assert(last_slash(p) == -1);
    None
}

} // verus!
