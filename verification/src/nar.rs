//! The nix archive (NAR) serialization of a file tree and its SRI sha256 hash, as
//! `builtins.fetchTree` computes it.
use vstd::prelude::*;
use vstd::string::*;

use crate::text::push_char;
use sha2::{Digest, Sha256};

verus! {

/// A file tree as the NAR format sees it.
pub enum NarNode {
    /// A regular file: its permission bits, the size it was found to have, and its bytes.
    Regular { mode: u32, size: u64, contents: Vec<u8> },
    /// A symbolic link and the bytes of its target.
    Symlink { target: Vec<u8> },
    /// A directory; build it with `NarNode::directory`, which orders the entries.
    Directory { entries: Vec<NarEntry> },
}

/// A named entry of a directory.
pub struct NarEntry {
    pub name: Vec<u8>,
    pub node: NarNode,
}

/// Why a tree could not be hashed.
pub enum NarError {
    /// The regular file at this path (names from the root down) did not hold as many
    /// bytes as its size said.
    SizeChanged { path: Vec<Vec<u8>> },
}

// ---------------------------------------------------------------------------
// The wire format
// ---------------------------------------------------------------------------

/// The bytes of an ASCII text.
pub open spec fn ascii(s: Seq<char>) -> Seq<u8> {
    s.map_values(|c: char| c as u8)
}

/// The eight little-endian bytes of `x`.
pub open spec fn le64(x: u64) -> Seq<u8> {
    seq![
        x as u8,
        (x >> 8u64) as u8,
        (x >> 16u64) as u8,
        (x >> 24u64) as u8,
        (x >> 32u64) as u8,
        (x >> 40u64) as u8,
        (x >> 48u64) as u8,
        (x >> 56u64) as u8,
    ]
}

/// Number of zero bytes that bring `len` up to a multiple of eight.
pub open spec fn pad_len(len: nat) -> nat {
    if len % 8 == 0 {
        0
    } else {
        (8 - len % 8) as nat
    }
}

/// `n` zero bytes.
pub open spec fn zeros(n: nat) -> Seq<u8> {
    Seq::new(n, |i: int| 0u8)
}

/// A NAR string: its length as eight little-endian bytes, its bytes, zero padding to a
/// multiple of eight.
pub open spec fn nar_str(b: Seq<u8>) -> Seq<u8> {
    le64(b.len() as u64) + b + zeros(pad_len(b.len()))
}

pub open spec fn magic() -> Seq<u8> {
    ascii(seq!['n', 'i', 'x', '-', 'a', 'r', 'c', 'h', 'i', 'v', 'e', '-', '1'])
}

#[verifier::opaque]
pub open spec fn t_open() -> Seq<u8> {
    nar_str(ascii(seq!['(']))
}

#[verifier::opaque]
pub open spec fn t_close() -> Seq<u8> {
    nar_str(ascii(seq![')']))
}

#[verifier::opaque]
pub open spec fn t_type() -> Seq<u8> {
    nar_str(ascii(seq!['t', 'y', 'p', 'e']))
}

#[verifier::opaque]
pub open spec fn t_regular() -> Seq<u8> {
    nar_str(ascii(seq!['r', 'e', 'g', 'u', 'l', 'a', 'r']))
}

#[verifier::opaque]
pub open spec fn t_executable() -> Seq<u8> {
    nar_str(ascii(seq!['e', 'x', 'e', 'c', 'u', 't', 'a', 'b', 'l', 'e']))
}

#[verifier::opaque]
pub open spec fn t_empty() -> Seq<u8> {
    nar_str(Seq::<u8>::empty())
}

#[verifier::opaque]
pub open spec fn t_contents() -> Seq<u8> {
    nar_str(ascii(seq!['c', 'o', 'n', 't', 'e', 'n', 't', 's']))
}

#[verifier::opaque]
pub open spec fn t_symlink() -> Seq<u8> {
    nar_str(ascii(seq!['s', 'y', 'm', 'l', 'i', 'n', 'k']))
}

#[verifier::opaque]
pub open spec fn t_target() -> Seq<u8> {
    nar_str(ascii(seq!['t', 'a', 'r', 'g', 'e', 't']))
}

#[verifier::opaque]
pub open spec fn t_directory() -> Seq<u8> {
    nar_str(ascii(seq!['d', 'i', 'r', 'e', 'c', 't', 'o', 'r', 'y']))
}

#[verifier::opaque]
pub open spec fn t_entry() -> Seq<u8> {
    nar_str(ascii(seq!['e', 'n', 't', 'r', 'y']))
}

#[verifier::opaque]
pub open spec fn t_name() -> Seq<u8> {
    nar_str(ascii(seq!['n', 'a', 'm', 'e']))
}

#[verifier::opaque]
pub open spec fn t_node() -> Seq<u8> {
    nar_str(ascii(seq!['n', 'o', 'd', 'e']))
}

/// The owner's execute bit set, which is what Nix records as `executable`.
pub open spec fn is_executable(mode: u32) -> bool {
    mode & 0o100u32 != 0
}

/// The NAR bytes of a node.
pub open spec fn node_bytes(n: NarNode) -> Seq<u8>
    decreases n, 0nat,
{
    match n {
        NarNode::Regular { mode, size, contents } => {
            t_open() + t_type() + t_regular() + (if is_executable(mode) {
                t_executable() + t_empty()
            } else {
                Seq::empty()
            }) + t_contents() + le64(size) + contents@ + zeros(pad_len(size as nat)) + t_close()
        },
        NarNode::Symlink { target } => {
            t_open() + t_type() + t_symlink() + t_target() + nar_str(target@) + t_close()
        },
        NarNode::Directory { entries } => {
            t_open() + t_type() + t_directory() + entries_bytes(entries@) + t_close()
        },
    }
}

/// The NAR bytes of a directory's entries, in the order given.
pub open spec fn entries_bytes(es: Seq<NarEntry>) -> Seq<u8>
    decreases es, 1nat,
{
    if es.len() == 0 {
        Seq::empty()
    } else {
        entries_bytes(es.drop_last()) + t_entry() + t_open() + t_name() + nar_str(es.last().name@)
            + t_node() + node_bytes(es.last().node) + t_close()
    }
}

/// Every directory in the tree lists its entries in name order, as Nix writes them.
pub open spec fn tree_sorted(n: NarNode) -> bool
    decreases n, 0nat,
{
    match n {
        NarNode::Directory { entries } => sorted_by_name(entries@) && entries_sorted(entries@),
        _ => true,
    }
}

/// Every entry's node is `tree_sorted`.
pub open spec fn entries_sorted(es: Seq<NarEntry>) -> bool
    decreases es, 1nat,
{
    if es.len() == 0 {
        true
    } else {
        entries_sorted(es.drop_last()) && tree_sorted(es.last().node)
    }
}

/// The whole archive of a tree.
pub open spec fn archive(n: NarNode) -> Seq<u8> {
    nar_str(magic()) + node_bytes(n)
}

/// Path (names from the root down) to the first regular file, in archive order, whose
/// contents do not have the size recorded for it.
pub open spec fn first_mismatch(n: NarNode) -> Option<Seq<Seq<u8>>>
    decreases n, 0nat,
{
    match n {
        NarNode::Regular { mode, size, contents } => {
            if contents@.len() == size as nat {
                None
            } else {
                Some(Seq::empty())
            }
        },
        NarNode::Symlink { target } => None,
        NarNode::Directory { entries } => entries_mismatch(entries@),
    }
}

/// `first_mismatch` over a directory's entries, in the order given.
pub open spec fn entries_mismatch(es: Seq<NarEntry>) -> Option<Seq<Seq<u8>>>
    decreases es, 1nat,
{
    if es.len() == 0 {
        None
    } else {
        match entries_mismatch(es.drop_last()) {
            Some(p) => Some(p),
            None => match first_mismatch(es.last().node) {
                Some(p) => Some(seq![es.last().name@] + p),
                None => None,
            },
        }
    }
}

// ---------------------------------------------------------------------------
// Writing the format
// ---------------------------------------------------------------------------

fn ascii_bytes(cs: &[char]) -> (r: Vec<u8>)
    ensures
        r@ == ascii(cs@),
{
    let mut out: Vec<u8> = Vec::new();
    let mut i: usize = 0;
    while i < cs.len()
        invariant
            i <= cs.len(),
            out@ == ascii(cs@.take(i as int)),
        decreases cs.len() - i,
    {
        out.push(cs[i] as u8);
        i = i + 1;
        assert(out@ =~= ascii(cs@.take(i as int)));
    }
    assert(cs@.take(i as int) =~= cs@);
    out
}

fn push_all(out: &mut Vec<u8>, b: &[u8])
    ensures
        final(out)@ == old(out)@ + b@,
{
    let ghost start = out@;
    let mut i: usize = 0;
    while i < b.len()
        invariant
            i <= b.len(),
            out@ == start + b@.take(i as int),
        decreases b.len() - i,
    {
        out.push(b[i]);
        i = i + 1;
        assert(out@ =~= start + b@.take(i as int));
    }
    assert(b@.take(i as int) =~= b@);
}

fn copy_bytes(b: &[u8]) -> (r: Vec<u8>)
    ensures
        r@ == b@,
{
    let mut v: Vec<u8> = Vec::new();
    push_all(&mut v, b);
    assert(v@ =~= b@);
    v
}

fn push_le64(out: &mut Vec<u8>, x: u64)
    ensures
        final(out)@ == old(out)@ + le64(x),
{
    let ghost start = out@;
    out.push(x as u8);
    out.push((x >> 8u64) as u8);
    out.push((x >> 16u64) as u8);
    out.push((x >> 24u64) as u8);
    out.push((x >> 32u64) as u8);
    out.push((x >> 40u64) as u8);
    out.push((x >> 48u64) as u8);
    out.push((x >> 56u64) as u8);
    assert(out@ =~= start + le64(x));
}

/// Zero bytes up to the next multiple of eight after `len` bytes.
fn pad(out: &mut Vec<u8>, len: u64)
    ensures
        final(out)@ == old(out)@ + zeros(pad_len(len as nat)),
{
    let ghost start = out@;
    let rem = len % 8;
    if rem != 0 {
        let n = 8 - rem;
        let mut k: u64 = 0;
        while k < n
            invariant
                k <= n,
                n == 8 - rem,
                out@ == start + zeros(k as nat),
            decreases n - k,
        {
            out.push(0u8);
            k = k + 1;
            assert(out@ =~= start + zeros(k as nat));
        }
    } else {
        assert(out@ =~= start + zeros(0));
    }
}

/// Writes `b` as a NAR string.
fn emit_bytes(out: &mut Vec<u8>, b: &[u8])
    ensures
        final(out)@ == old(out)@ + nar_str(b@),
{
    let ghost start = out@;
    push_le64(out, b.len() as u64);
    push_all(out, b);
    pad(out, b.len() as u64);
    assert(out@ =~= start + nar_str(b@));
}

/// Writes the ASCII text `cs` as a NAR string.
fn emit_token(out: &mut Vec<u8>, cs: &[char])
    ensures
        final(out)@ == old(out)@ + nar_str(ascii(cs@)),
{
    let b = ascii_bytes(cs);
    emit_bytes(out, b.as_slice());
}

proof fn lemma_entries_sorted_all(es: Seq<NarEntry>)
    ensures
        entries_sorted(es) <==> forall|i: int| 0 <= i < es.len() ==> tree_sorted(#[trigger] es[i].node),
    decreases es.len(),
{
    if es.len() > 0 {
        lemma_entries_sorted_all(es.drop_last());
        if forall|i: int| 0 <= i < es.len() ==> tree_sorted(#[trigger] es[i].node) {
            assert forall|i: int| 0 <= i < es.drop_last().len() implies tree_sorted(
                #[trigger] es.drop_last()[i].node,
            ) by {
                assert(es.drop_last()[i] == es[i]);
            }
        }
        if entries_sorted(es) {
            assert forall|i: int| 0 <= i < es.len() implies tree_sorted(#[trigger] es[i].node) by {
                if i < es.len() - 1 {
                    assert(es.drop_last()[i] == es[i]);
                }
            }
        }
    }
}

/// The fixed words of the NAR format.
enum Word {
    Open,
    Close,
    Type,
    Regular,
    Executable,
    Empty,
    Contents,
    Symlink,
    Target,
    Directory,
    Entry,
    Name,
    Node,
}

/// The NAR string of a fixed word.
spec fn word(w: Word) -> Seq<u8> {
    match w {
        Word::Open => t_open(),
        Word::Close => t_close(),
        Word::Type => t_type(),
        Word::Regular => t_regular(),
        Word::Executable => t_executable(),
        Word::Empty => t_empty(),
        Word::Contents => t_contents(),
        Word::Symlink => t_symlink(),
        Word::Target => t_target(),
        Word::Directory => t_directory(),
        Word::Entry => t_entry(),
        Word::Name => t_name(),
        Word::Node => t_node(),
    }
}

/// Writes a fixed word as a NAR string.
fn emit_word(out: &mut Vec<u8>, w: Word)
    ensures
        final(out)@ == old(out)@ + word(w),
{
    match w {
        Word::Open => {
            let cs: &[char] = &['('];
            assert(cs@ =~= seq!['(']);
            emit_token(out, cs);
            proof {
                reveal(t_open);
            }
        },
        Word::Close => {
            let cs: &[char] = &[')'];
            assert(cs@ =~= seq![')']);
            emit_token(out, cs);
            proof {
                reveal(t_close);
            }
        },
        Word::Type => {
            let cs: &[char] = &['t', 'y', 'p', 'e'];
            assert(cs@ =~= seq!['t', 'y', 'p', 'e']);
            emit_token(out, cs);
            proof {
                reveal(t_type);
            }
        },
        Word::Regular => {
            let cs: &[char] = &['r', 'e', 'g', 'u', 'l', 'a', 'r'];
            assert(cs@ =~= seq!['r', 'e', 'g', 'u', 'l', 'a', 'r']);
            emit_token(out, cs);
            proof {
                reveal(t_regular);
            }
        },
        Word::Executable => {
            let cs: &[char] = &['e', 'x', 'e', 'c', 'u', 't', 'a', 'b', 'l', 'e'];
            assert(cs@ =~= seq!['e', 'x', 'e', 'c', 'u', 't', 'a', 'b', 'l', 'e']);
            emit_token(out, cs);
            proof {
                reveal(t_executable);
            }
        },
        Word::Empty => {
            let cs: &[char] = &[];
            assert(cs@ =~= Seq::<char>::empty());
            emit_token(out, cs);
            proof {
                reveal(t_empty);
            }
        },
        Word::Contents => {
            let cs: &[char] = &['c', 'o', 'n', 't', 'e', 'n', 't', 's'];
            assert(cs@ =~= seq!['c', 'o', 'n', 't', 'e', 'n', 't', 's']);
            emit_token(out, cs);
            proof {
                reveal(t_contents);
            }
        },
        Word::Symlink => {
            let cs: &[char] = &['s', 'y', 'm', 'l', 'i', 'n', 'k'];
            assert(cs@ =~= seq!['s', 'y', 'm', 'l', 'i', 'n', 'k']);
            emit_token(out, cs);
            proof {
                reveal(t_symlink);
            }
        },
        Word::Target => {
            let cs: &[char] = &['t', 'a', 'r', 'g', 'e', 't'];
            assert(cs@ =~= seq!['t', 'a', 'r', 'g', 'e', 't']);
            emit_token(out, cs);
            proof {
                reveal(t_target);
            }
        },
        Word::Directory => {
            let cs: &[char] = &['d', 'i', 'r', 'e', 'c', 't', 'o', 'r', 'y'];
            assert(cs@ =~= seq!['d', 'i', 'r', 'e', 'c', 't', 'o', 'r', 'y']);
            emit_token(out, cs);
            proof {
                reveal(t_directory);
            }
        },
        Word::Entry => {
            let cs: &[char] = &['e', 'n', 't', 'r', 'y'];
            assert(cs@ =~= seq!['e', 'n', 't', 'r', 'y']);
            emit_token(out, cs);
            proof {
                reveal(t_entry);
            }
        },
        Word::Name => {
            let cs: &[char] = &['n', 'a', 'm', 'e'];
            assert(cs@ =~= seq!['n', 'a', 'm', 'e']);
            emit_token(out, cs);
            proof {
                reveal(t_name);
            }
        },
        Word::Node => {
            let cs: &[char] = &['n', 'o', 'd', 'e'];
            assert(cs@ =~= seq!['n', 'o', 'd', 'e']);
            emit_token(out, cs);
            proof {
                reveal(t_node);
            }
        },
    }
}

/// The names along an error path, as byte strings.
pub open spec fn path_view(p: Seq<Vec<u8>>) -> Seq<Seq<u8>> {
    p.map_values(|v: Vec<u8>| v@)
}

proof fn lemma_mismatch_prefix(es: Seq<NarEntry>, k: int)
    requires
        0 <= k <= es.len(),
        entries_mismatch(es.take(k)) is Some,
    ensures
        entries_mismatch(es) == entries_mismatch(es.take(k)),
    decreases es.len() - k,
{
    if k < es.len() {
        assert(es.take(k + 1).drop_last() =~= es.take(k));
        lemma_mismatch_prefix(es, k + 1);
    } else {
        assert(es.take(k) =~= es);
    }
}

fn emit_regular(out: &mut Vec<u8>, mode: u32, size: u64, contents: &Vec<u8>) -> (r: bool)
    ensures
        r == (contents@.len() == size as nat),
        r ==> final(out)@ == old(out)@ + node_bytes(
            NarNode::Regular { mode, size, contents: *contents },
        ),
{
    let ghost start = out@;
    emit_word(out, Word::Open);
    emit_word(out, Word::Type);
    emit_word(out, Word::Regular);
    let ghost mid = out@;
    if mode & 0o100u32 != 0 {
        emit_word(out, Word::Executable);
        emit_word(out, Word::Empty);
    }
    assert(out@ =~= mid + (if is_executable(mode) {
        t_executable() + t_empty()
    } else {
        Seq::empty()
    }));
    emit_word(out, Word::Contents);
    push_le64(out, size);
    push_all(out, contents.as_slice());
    if contents.len() as u64 != size {
        return false;
    }
    pad(out, size);
    emit_word(out, Word::Close);
    assert(out@ =~= start + node_bytes(NarNode::Regular { mode, size, contents: *contents }));
    true
}

fn emit_symlink(out: &mut Vec<u8>, target: &Vec<u8>)
    ensures
        final(out)@ == old(out)@ + node_bytes(NarNode::Symlink { target: *target }),
{
    let ghost start = out@;
    emit_word(out, Word::Open);
    emit_word(out, Word::Type);
    emit_word(out, Word::Symlink);
    emit_word(out, Word::Target);
    emit_bytes(out, target.as_slice());
    emit_word(out, Word::Close);
    assert(out@ =~= start + node_bytes(NarNode::Symlink { target: *target }));
}

/// Writes the NAR bytes of `node`, or gives the path of the first regular file whose
/// contents disagree with its size.
fn emit_node(out: &mut Vec<u8>, node: &NarNode) -> (r: Result<(), Vec<Vec<u8>>>)
    ensures
        match r {
            Ok(()) => first_mismatch(*node) is None && final(out)@ == old(out)@ + node_bytes(*node),
            Err(p) => first_mismatch(*node) == Some(path_view(p@)),
        },
    decreases node, 0nat,
{
    match node {
        NarNode::Symlink { target } => {
            emit_symlink(out, target);
            Ok(())
        },
        NarNode::Regular { mode, size, contents } => {
            if emit_regular(out, *mode, *size, contents) {
                Ok(())
            } else {
                let p: Vec<Vec<u8>> = Vec::new();
                assert(path_view(p@) =~= Seq::<Seq<u8>>::empty());
                Err(p)
            }
        },
        NarNode::Directory { entries } => {
            let ghost start = out@;
            emit_word(out, Word::Open);
            emit_word(out, Word::Type);
            emit_word(out, Word::Directory);
            assert(decreases_to!(*node => *entries));
            match emit_entries(out, entries) {
                Ok(()) => {},
                Err(p) => {
                    return Err(p);
                },
            }
            emit_word(out, Word::Close);
            assert(out@ =~= start + node_bytes(*node));
            Ok(())
        },
    }
}

/// Writes the entries of a directory in the order given.
#[verifier::spinoff_prover]
#[verifier::rlimit(40)]
fn emit_entries(out: &mut Vec<u8>, entries: &Vec<NarEntry>) -> (r: Result<(), Vec<Vec<u8>>>)
    ensures
        match r {
            Ok(()) => entries_mismatch(entries@) is None && final(out)@ == old(out)@
                + entries_bytes(entries@),
            Err(p) => entries_mismatch(entries@) == Some(path_view(p@)),
        },
    decreases entries, 1nat,
{
    let ghost head = out@;
    assert(entries@.take(0) =~= Seq::<NarEntry>::empty());
    let mut i: usize = 0;
    while i < entries.len()
        invariant
            i <= entries@.len(),
            out@ == head + entries_bytes(entries@.take(i as int)),
            entries_mismatch(entries@.take(i as int)) is None,
        decreases entries@.len() - i,
    {
        let e = &entries[i];
        assert(entries@.take(i + 1).drop_last() =~= entries@.take(i as int));
        assert(entries@.take(i + 1).last() == entries@[i as int]);
        emit_word(out, Word::Entry);
        emit_word(out, Word::Open);
        emit_word(out, Word::Name);
        emit_bytes(out, e.name.as_slice());
        emit_word(out, Word::Node);
        assert(decreases_to!(*entries => entries@[i as int].node)) by {
            assert(decreases_to!(*entries => entries@));
            assert(decreases_to!(entries@ => entries@[i as int]));
        }
        match emit_node(out, &e.node) {
            Ok(()) => {},
            Err(mut p) => {
                let name = copy_bytes(e.name.as_slice());
                let ghost tail = p@;
                p.insert(0, name);
                assert(path_view(p@) =~= seq![e.name@] + path_view(tail));
                proof {
                    lemma_mismatch_prefix(entries@, i + 1);
                }
                return Err(p);
            },
        }
        emit_word(out, Word::Close);
        i = i + 1;
        assert(out@ =~= head + entries_bytes(entries@.take(i as int)));
    }
    assert(entries@.take(i as int) =~= entries@);
    Ok(())
}

// ---------------------------------------------------------------------------
// Directory order
// ---------------------------------------------------------------------------

/// Byte-wise lexicographic order, as `[u8]::cmp` compares names.
pub open spec fn bytes_lt(a: Seq<u8>, b: Seq<u8>) -> bool
    decreases a.len(),
{
    if a.len() == 0 {
        b.len() > 0
    } else if b.len() == 0 {
        false
    } else if a[0] != b[0] {
        a[0] < b[0]
    } else {
        bytes_lt(a.drop_first(), b.drop_first())
    }
}

/// Entries ordered by name, as NAR requires.
pub open spec fn sorted_by_name(es: Seq<NarEntry>) -> bool {
    forall|i: int, j: int| 0 <= i < j < es.len() ==> !bytes_lt(es[j].name@, es[i].name@)
}

proof fn lemma_bytes_lt_trans(a: Seq<u8>, b: Seq<u8>, c: Seq<u8>)
    requires
        bytes_lt(a, b),
        bytes_lt(b, c),
    ensures
        bytes_lt(a, c),
    decreases a.len(),
{
    if a.len() > 0 && b.len() > 0 && c.len() > 0 && a[0] == b[0] && b[0] == c[0] {
        lemma_bytes_lt_trans(a.drop_first(), b.drop_first(), c.drop_first());
    }
}

proof fn lemma_bytes_lt_irrefl(a: Seq<u8>)
    ensures
        !bytes_lt(a, a),
    decreases a.len(),
{
    if a.len() > 0 {
        lemma_bytes_lt_irrefl(a.drop_first());
    }
}

/// Two different names are ordered one way or the other.
proof fn lemma_bytes_lt_total(a: Seq<u8>, b: Seq<u8>)
    requires
        a != b,
    ensures
        bytes_lt(a, b) || bytes_lt(b, a),
    decreases a.len(),
{
    if a.len() > 0 && b.len() > 0 && a[0] == b[0] {
        if a.drop_first() == b.drop_first() {
            assert(a =~= seq![a[0]] + a.drop_first());
            assert(b =~= seq![b[0]] + b.drop_first());
        }
        lemma_bytes_lt_total(a.drop_first(), b.drop_first());
    } else if a.len() == 0 && b.len() == 0 {
        assert(a =~= b);
    }
}

/// `a` orders before `b`.
pub fn bytes_less(a: &[u8], b: &[u8]) -> (r: bool)
    ensures
        r == bytes_lt(a@, b@),
{
    let mut i: usize = 0;
    assert(a@.skip(0) =~= a@ && b@.skip(0) =~= b@);
    while i < a.len() && i < b.len() && a[i] == b[i]
        invariant
            i <= a.len(),
            i <= b.len(),
            bytes_lt(a@, b@) == bytes_lt(a@.skip(i as int), b@.skip(i as int)),
        decreases a.len() - i,
    {
        assert(a@.skip(i as int).drop_first() =~= a@.skip(i + 1));
        assert(b@.skip(i as int).drop_first() =~= b@.skip(i + 1));
        i = i + 1;
    }
    if i == a.len() {
        i < b.len()
    } else if i == b.len() {
        false
    } else {
        a[i] < b[i]
    }
}

proof fn lemma_insert_multiset<A>(s: Seq<A>, p: int, e: A)
    requires
        0 <= p <= s.len(),
    ensures
        s.insert(p, e).to_multiset() =~= s.to_multiset().insert(e),
{
    broadcast use vstd::seq_lib::group_to_multiset_ensures;

    let t = s.insert(p, e);
    t.to_multiset_ensures();
    assert(t.remove(p) =~= s);
    assert(t[p] == e);
    assert(t.to_multiset().count(e) > 0) by {
        assert(t.contains(e));
    }
}

/// The entries reordered by name; the same entries, each as often.
pub fn sort_entries(entries: Vec<NarEntry>) -> (r: Vec<NarEntry>)
    ensures
        r@.to_multiset() =~= entries@.to_multiset(),
        sorted_by_name(r@),
{
    broadcast use vstd::seq_lib::group_to_multiset_ensures;

    let ghost orig = entries@;
    let mut rest = entries;
    let mut out: Vec<NarEntry> = Vec::new();
    while rest.len() > 0
        invariant
            out@.to_multiset().add(rest@.to_multiset()) =~= orig.to_multiset(),
            sorted_by_name(out@),
        decreases rest.len(),
    {
        let ghost before = rest@;
        let e = rest.pop().unwrap();
        assert(before =~= rest@.push(e));
        proof {
            rest@.to_multiset_ensures();
            assert(rest@.push(e).to_multiset() =~= rest@.to_multiset().insert(e));
        }
        assert(before.to_multiset() =~= rest@.to_multiset().insert(e));
        let mut p: usize = 0;
        while p < out.len() && !bytes_less(e.name.as_slice(), out[p].name.as_slice())
            invariant
                p <= out@.len(),
                forall|k: int| 0 <= k < p ==> !bytes_lt(e.name@, #[trigger] out@[k].name@),
            decreases out@.len() - p,
        {
            p = p + 1;
        }
        let ghost old_out = out@;
        proof {
            lemma_insert_multiset(old_out, p as int, e);
        }
        out.insert(p, e);
        proof {
            assert(out@ == old_out.insert(p as int, e));
            assert(out@.to_multiset().add(rest@.to_multiset()) =~= old_out.to_multiset().add(
                before.to_multiset(),
            ));
            assert forall|i: int, j: int| 0 <= i < j < out@.len() implies !bytes_lt(
                out@[j].name@,
                out@[i].name@,
            ) by {
                if j == p {
                    assert(out@[i] == old_out[i]);
                } else if i == p {
                    let x = old_out[j - 1];
                    assert(out@[j] == x);
                    if p < old_out.len() {
                        assert(bytes_lt(e.name@, old_out[p as int].name@));
                        if bytes_lt(x.name@, e.name@) {
                            lemma_bytes_lt_trans(x.name@, e.name@, old_out[p as int].name@);
                            if p as int != j - 1 {
                                assert(!bytes_lt(old_out[j - 1].name@, old_out[p as int].name@));
                            } else {
                                lemma_bytes_lt_irrefl(x.name@);
                            }
                        }
                    }
                } else if i < p && j < p {
                    assert(out@[i] == old_out[i] && out@[j] == old_out[j]);
                } else if i < p {
                    assert(out@[i] == old_out[i] && out@[j] == old_out[j - 1]);
                } else {
                    assert(out@[i] == old_out[i - 1] && out@[j] == old_out[j - 1]);
                }
            }
        }
    }
    assert(rest@ =~= Seq::<NarEntry>::empty());
    out
}

impl NarNode {
    /// A directory holding `entries`, ordered by name.
    pub fn directory(entries: Vec<NarEntry>) -> (r: NarNode)
        ensures
            r matches NarNode::Directory { entries: es } && sorted_by_name(es@)
                && es@.to_multiset() =~= entries@.to_multiset(),
            entries_sorted(entries@) ==> tree_sorted(r),
    {
        let ghost orig = entries@;
        let sorted = sort_entries(entries);
        proof {
            broadcast use vstd::seq_lib::group_to_multiset_ensures;

            if entries_sorted(orig) {
                lemma_entries_sorted_all(orig);
                lemma_entries_sorted_all(sorted@);
                assert forall|i: int| 0 <= i < sorted@.len() implies tree_sorted(
                    #[trigger] sorted@[i].node,
                ) by {
                    assert(sorted@.to_multiset().count(sorted@[i]) > 0);
                    assert(orig.contains(sorted@[i]));
                }
            }
        }
        NarNode::Directory { entries: sorted }
    }
}

// ---------------------------------------------------------------------------
// Base64 and the hash
// ---------------------------------------------------------------------------

/// The standard base64 alphabet.
pub const B64: [char; 64] = ['A', 'B', 'C', 'D', 'E', 'F', 'G', 'H', 'I', 'J', 'K', 'L', 'M', 'N', 'O', 'P', 'Q', 'R', 'S', 'T', 'U', 'V', 'W', 'X', 'Y', 'Z', 'a', 'b', 'c', 'd', 'e', 'f', 'g', 'h', 'i', 'j', 'k', 'l', 'm', 'n', 'o', 'p', 'q', 'r', 's', 't', 'u', 'v', 'w', 'x', 'y', 'z', '0', '1', '2', '3', '4', '5', '6', '7', '8', '9', '+', '/'];

/// Base64 of one group of up to three bytes (`n_in` of them real, the rest zero), with
/// `=` standing for each missing byte.
pub open spec fn b64_group(b0: u8, b1: u8, b2: u8, n_in: int) -> Seq<char> {
    let n: u32 = ((b0 as u32) << 16u32) | ((b1 as u32) << 8u32) | (b2 as u32);
    seq![
        B64@[((n >> 18u32) & 63u32) as int],
        B64@[((n >> 12u32) & 63u32) as int],
        if n_in > 1 { B64@[((n >> 6u32) & 63u32) as int] } else { '=' },
        if n_in > 2 { B64@[(n & 63u32) as int] } else { '=' },
    ]
}

/// Padded standard base64 of `d`.
pub open spec fn b64_spec(d: Seq<u8>) -> Seq<char>
    decreases d.len(),
{
    if d.len() == 0 {
        Seq::empty()
    } else if d.len() <= 3 {
        b64_group(
            d[0],
            if d.len() > 1 { d[1] } else { 0u8 },
            if d.len() > 2 { d[2] } else { 0u8 },
            d.len() as int,
        )
    } else {
        b64_group(d[0], d[1], d[2], 3) + b64_spec(d.skip(3))
    }
}

/// Padded standard base64 encoding.
pub fn b64(data: &[u8]) -> (r: String)
    ensures
        r@ == b64_spec(data@),
{
    let mut out = String::new();
    let mut i: usize = 0;
    assert(data@.skip(0) =~= data@);
    while i < data.len()
        invariant
            i <= data.len(),
            out@ + b64_spec(data@.skip(i as int)) == b64_spec(data@),
        decreases data.len() - i,
    {
        let rem = data.len() - i;
        let b0 = data[i];
        let b1 = if rem > 1 { data[i + 1] } else { 0u8 };
        let b2 = if rem > 2 { data[i + 2] } else { 0u8 };
        let n: u32 = ((b0 as u32) << 16u32) | ((b1 as u32) << 8u32) | (b2 as u32);
        assert((n >> 18u32) & 63u32 < 64u32) by (bit_vector);
        assert((n >> 12u32) & 63u32 < 64u32) by (bit_vector);
        assert((n >> 6u32) & 63u32 < 64u32) by (bit_vector);
        assert(n & 63u32 < 64u32) by (bit_vector);
        let ghost before = out@;
        let ghost tail = data@.skip(i as int);
        push_char(&mut out, B64[((n >> 18u32) & 63u32) as usize]);
        push_char(&mut out, B64[((n >> 12u32) & 63u32) as usize]);
        if rem > 1 {
            push_char(&mut out, B64[((n >> 6u32) & 63u32) as usize]);
        } else {
            push_char(&mut out, '=');
        }
        if rem > 2 {
            push_char(&mut out, B64[(n & 63u32) as usize]);
        } else {
            push_char(&mut out, '=');
        }
        let ghost group = b64_group(b0, b1, b2, if rem > 3 { 3 } else { rem as int });
        assert(out@ =~= before + group);
        if rem <= 3 {
            assert(b64_spec(tail) == group);
            i = data.len();
            assert(data@.skip(i as int) =~= Seq::<u8>::empty());
            assert(out@ + b64_spec(data@.skip(i as int)) =~= before + b64_spec(tail));
        } else {
            assert(tail.skip(3) =~= data@.skip(i + 3));
            assert(b64_spec(tail) == group + b64_spec(data@.skip(i + 3)));
            i = i + 3;
            assert(out@ + b64_spec(data@.skip(i as int)) =~= before + b64_spec(tail));
        }
    }
    assert(data@.skip(i as int) =~= Seq::<u8>::empty());
    assert(out@ + Seq::<char>::empty() =~= out@);
    out
}

/// The SHA-256 digest of `data`.
pub uninterp spec fn sha256_spec(data: Seq<u8>) -> Seq<u8>;

/// `sha2::Sha256::digest`: the SHA-256 digest of `data`, thirty-two bytes long.
#[verifier::external_body]
fn sha256(data: &[u8]) -> (r: Vec<u8>)
    ensures
        r@ == sha256_spec(data@),
        r@.len() == 32,
{
    Sha256::digest(data).to_vec()
}

/// The SRI sha256 hash of a tree's NAR serialization, as `builtins.fetchTree` reports
/// it; fails, naming the file, where a regular file's contents disagree with its size.
pub fn hash_path(root: &NarNode) -> (r: Result<String, NarError>)
    requires
        tree_sorted(*root),
    ensures
        match r {
            Ok(s) => first_mismatch(*root) is None && s@ == "sha256-"@ + b64_spec(
                sha256_spec(archive(*root)),
            ) && sha256_spec(archive(*root)).len() == 32 && s@.len() == 51 && s@[50] == '=',
            Err(NarError::SizeChanged { path }) => first_mismatch(*root) == Some(path_view(path@)),
        },
{
    let mut out: Vec<u8> = Vec::new();
    let magic_bytes = ascii_bytes(
        &['n', 'i', 'x', '-', 'a', 'r', 'c', 'h', 'i', 'v', 'e', '-', '1'],
    );
    assert(magic_bytes@ =~= magic());
    emit_bytes(&mut out, magic_bytes.as_slice());
    match emit_node(&mut out, root) {
        Ok(()) => {},
        Err(path) => {
            return Err(NarError::SizeChanged { path });
        },
    }
    assert(out@ =~= archive(*root));
    let digest = sha256(out.as_slice());
    let mut s = String::from_str("sha256-");
    let enc = b64(digest.as_slice());
    proof {
        reveal_strlit("sha256-");
        law_b64_len(digest@);
        lemma_b64_last_pad(digest@);
    }
    s.append(enc.as_str());
    Ok(s)
}

/// `p` with the name `c` added as `PathBuf::push` adds one: a `/` goes between them
/// unless `p` is empty or already ends in one.
pub open spec fn push_path(p: Seq<u8>, c: Seq<u8>) -> Seq<u8> {
    if p.len() > 0 && p.last() != 47u8 {
        p + seq![47u8] + c
    } else {
        p + c
    }
}

/// `root` with the names `cs` added in turn.
pub open spec fn join_path(root: Seq<u8>, cs: Seq<Seq<u8>>) -> Seq<u8>
    decreases cs.len(),
{
    if cs.len() == 0 {
        root
    } else {
        push_path(join_path(root, cs.drop_last()), cs.last())
    }
}

/// The message shown for a hashing error, the tree being at `root`.
pub open spec fn nar_error_text(e: NarError, root: Seq<u8>) -> Seq<u8> {
    match e {
        NarError::SizeChanged { path } => join_path(root, path_view(path@)) + " changed size during hashing".spec_bytes(),
    }
}

impl NarError {
    /// The message shown for this error, the tree being at `root`: the file's path, then
    /// what went wrong.
    pub fn message(&self, root: &[u8]) -> (r: Vec<u8>)
        ensures
            r@ == nar_error_text(*self, root@),
    {
        match self {
            NarError::SizeChanged { path } => {
                let mut out = copy_bytes(root);
                let mut i: usize = 0;
                assert(path_view(path@).take(0) =~= Seq::<Seq<u8>>::empty());
                while i < path.len()
                    invariant
                        i <= path@.len(),
                        out@ == join_path(root@, path_view(path@).take(i as int)),
                    decreases path@.len() - i,
                {
                    assert(path_view(path@).take(i + 1).drop_last() =~= path_view(path@).take(i as int));
                    let n = out.len();
                    if n > 0 && out[n - 1] != 47u8 {
                        out.push(47u8);
                    }
                    push_all(&mut out, path[i].as_slice());
                    i = i + 1;
                    assert(out@ =~= join_path(root@, path_view(path@).take(i as int)));
                }
                assert(path_view(path@).take(i as int) =~= path_view(path@));
                push_all(&mut out, " changed size during hashing".as_bytes());
                out
            },
        }
    }
}

// ---------------------------------------------------------------------------
// Laws
// ---------------------------------------------------------------------------

/// No two entries share a name.
pub open spec fn names_distinct(es: Seq<NarEntry>) -> bool {
    forall|i: int, j: int| 0 <= i < j < es.len() ==> es[i].name@ != es[j].name@
}

/// Every NAR string ends on a multiple of eight bytes.
pub proof fn law_nar_str_aligned(b: Seq<u8>)
    requires
        b.len() < 0x1_0000_0000_0000_0000,
    ensures
        nar_str(b).len() % 8 == 0,
        nar_str(b).len() == 8 + b.len() + pad_len(b.len()),
        pad_len(b.len()) < 8,
{
}

/// Base64 turns every started group of three bytes into four characters.
pub proof fn law_b64_len(d: Seq<u8>)
    ensures
        b64_spec(d).len() == 4 * ((d.len() + 2) / 3),
    decreases d.len(),
{
    if d.len() > 3 {
        law_b64_len(d.skip(3));
    }
}

proof fn lemma_u64_bytes(x: u64)
    by (bit_vector)
    ensures
        x as u8 == (x & 0xffu64) as u8,
        (x >> 8u64) as u8 == ((x >> 8u64) & 0xffu64) as u8,
        (x >> 16u64) as u8 == ((x >> 16u64) & 0xffu64) as u8,
        (x >> 24u64) as u8 == ((x >> 24u64) & 0xffu64) as u8,
        (x >> 32u64) as u8 == ((x >> 32u64) & 0xffu64) as u8,
        (x >> 40u64) as u8 == ((x >> 40u64) & 0xffu64) as u8,
        (x >> 48u64) as u8 == ((x >> 48u64) & 0xffu64) as u8,
        (x >> 56u64) as u8 == ((x >> 56u64) & 0xffu64) as u8,
        x == (x as u8) as u64 + ((x >> 8u64) as u8) as u64 * 0x100u64 + ((x >> 16u64) as u8) as u64
            * 0x1_0000u64 + ((x >> 24u64) as u8) as u64 * 0x100_0000u64 + ((x >> 32u64) as u8) as u64
            * 0x1_0000_0000u64 + ((x >> 40u64) as u8) as u64 * 0x100_0000_0000u64 + ((x >> 48u64)
            as u8) as u64 * 0x1_0000_0000_0000u64 + ((x >> 56u64) as u8) as u64
            * 0x100_0000_0000_0000u64,
{
}

/// The length prefix of a NAR string is the little-endian encoding of the length: byte
/// `k` holds bits `8k` to `8k + 7` of `x`, and the eight bytes, read back with the first
/// as the lowest, give `x`.
pub proof fn law_le64_little_endian(x: u64)
    ensures
        le64(x).len() == 8,
        forall|k: int| 0 <= k < 8 ==> #[trigger] le64(x)[k] == ((x >> ((8 * k) as u64)) & 0xffu64) as u8,
        x as int == le64(x)[0] + 0x100 * le64(x)[1] + 0x1_0000 * le64(x)[2] + 0x100_0000 * le64(x)[3]
            + 0x1_0000_0000 * le64(x)[4] + 0x100_0000_0000 * le64(x)[5] + 0x1_0000_0000_0000
            * le64(x)[6] + 0x100_0000_0000_0000 * le64(x)[7],
{
    lemma_u64_bytes(x);
    assert forall|k: int| 0 <= k < 8 implies #[trigger] le64(x)[k] == ((x >> ((8 * k) as u64)) & 0xffu64) as u8 by {
        if k == 0 {
            assert(((8 * k) as u64) == 0u64);
            assert(x >> 0u64 == x) by (bit_vector);
        } else if k == 1 {
            assert(((8 * k) as u64) == 8u64);
        } else if k == 2 {
            assert(((8 * k) as u64) == 16u64);
        } else if k == 3 {
            assert(((8 * k) as u64) == 24u64);
        } else if k == 4 {
            assert(((8 * k) as u64) == 32u64);
        } else if k == 5 {
            assert(((8 * k) as u64) == 40u64);
        } else if k == 6 {
            assert(((8 * k) as u64) == 48u64);
        } else {
            assert(((8 * k) as u64) == 56u64);
        }
    }
}

/// Base64 of a length that leaves two bytes over ends in one `=`.
pub proof fn lemma_b64_last_pad(d: Seq<u8>)
    requires
        d.len() % 3 == 2,
    ensures
        b64_spec(d).len() > 0,
        b64_spec(d).last() == '=',
    decreases d.len(),
{
    if d.len() > 3 {
        lemma_b64_last_pad(d.skip(3));
        let g = b64_group(d[0], d[1], d[2], 3);
        assert((g + b64_spec(d.skip(3))).last() == b64_spec(d.skip(3)).last());
    }
}

/// The entries of a directory come out in one order only: two name-ordered arrangements
/// of the same entries, no two sharing a name, are the same sequence, so the archive of
/// a directory does not depend on the order in which its entries were listed.
pub proof fn law_entry_order_irrelevant(a: Seq<NarEntry>, b: Seq<NarEntry>)
    requires
        sorted_by_name(a),
        sorted_by_name(b),
        a.to_multiset() == b.to_multiset(),
        names_distinct(a),
    ensures
        a == b,
        entries_bytes(a) == entries_bytes(b),
    decreases a.len(),
{
    broadcast use vstd::seq_lib::group_to_multiset_ensures;

    a.to_multiset_ensures();
    b.to_multiset_ensures();
    if a.len() == 0 {
        assert(b.len() == 0);
        assert(a =~= b);
    } else {
        assert(b.len() == a.len());
        assert(a.contains(a[0]));
        assert(b.to_multiset().count(a[0]) > 0);
        assert(b.contains(a[0]));
        let k = choose|k: int| 0 <= k < b.len() && b[k] == a[0];
        assert(a.to_multiset().count(b[0]) > 0) by {
            assert(b.contains(b[0]));
        }
        assert(a.contains(b[0]));
        let m = choose|m: int| 0 <= m < a.len() && a[m] == b[0];
        if a[0].name@ != b[0].name@ {
            lemma_bytes_lt_total(a[0].name@, b[0].name@);
            if bytes_lt(a[0].name@, b[0].name@) {
                if k > 0 {
                    assert(!bytes_lt(b[k].name@, b[0].name@));
                }
            } else {
                if m > 0 {
                    assert(!bytes_lt(a[m].name@, a[0].name@));
                }
            }
        }
        if m != 0 {
            assert(a[0].name@ != a[m].name@);
        }
        assert(a[0] == b[0]);
        let a1 = a.drop_first();
        let b1 = b.drop_first();
        assert(a.remove(0) =~= a1);
        assert(b.remove(0) =~= b1);
        assert(a1.to_multiset() =~= b1.to_multiset());
        law_entry_order_irrelevant(a1, b1);
        assert forall|i: int| 0 <= i < a.len() implies a[i] == b[i] by {
            if i > 0 {
                assert(a[i] == a1[i - 1]);
                assert(b[i] == b1[i - 1]);
            }
        }
        assert(a =~= b);
    }
}

} // verus!
