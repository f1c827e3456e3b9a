use vstd::prelude::*;
use crate::block::{header_view, spec_header, BlockHeader, BlockTrait};
use crate::hashing_buffer_reader::{le_value, HashingBufferReader};
use crate::hashmap::U64HashMap;
use vstd::string::StringSliceAdditionalSpecFns;

verus! {

/// The magic number that opens each block in a block file.
pub const BLOCK_MAGIC: u32 = 0xD9B4BEF9;

/// A block found in a block file: where its bytes are, its header, and the
/// height the chain gives it.
#[derive(Debug, Clone)]
pub struct FileBlock {
    pub file_path: String,
    pub offset: u64,
    pub length: usize,
    pub header: BlockHeader,
    pub height: usize,
}

impl FileBlock {
    /// A copy of this block placed at `height`.
    pub fn at_height(&self, height: usize) -> (r: Self)
        ensures
            r.file_path == self.file_path,
            r.offset == self.offset,
            r.length == self.length,
            r.header == self.header,
            r.height == height,
    {
        FileBlock { file_path: self.file_path.clone(), offset: self.offset, length: self.length, header: self.header, height }
    }
}

impl BlockTrait for FileBlock {
    closed spec fn spec_header(&self) -> BlockHeader {
        self.header
    }

    closed spec fn spec_height(&self) -> usize {
        self.height
    }

    fn header(&self) -> (r: &BlockHeader) {
        &self.header
    }

    fn height(&self) -> (r: usize) {
        self.height
    }
}

/// Why a block file could not be scanned.
#[derive(Debug, Clone, Copy, PartialEq, Eq)]
pub enum ScanError {
    /// A block starts with neither the magic number nor the zero padding.
    BadMagic { offset: usize },
    /// Fewer than the 88 bytes of a block's prefix and header are left.
    Truncated { offset: usize },
}

/// The blocks of a block file from `pos` on, as (offset of the raw block,
/// its length, its header): each is the magic number, a length, and that
/// many bytes. The file ends at its end or at a zero magic.
pub open spec fn spec_scan(buf: Seq<u8>, pos: int) -> Result<Seq<(int, int, (Seq<u8>, Seq<u8>))>, ScanError>
    decreases buf.len() - pos,
{
    if pos < 0 || pos >= buf.len() {
        Ok(Seq::empty())
    } else if pos + 88 > buf.len() {
        Err(ScanError::Truncated { offset: pos as usize })
    } else {
        let magic = le_value(buf.subrange(pos, pos + 4));
        let length = le_value(buf.subrange(pos + 4, pos + 8)) as int;
        if magic == 0 {
            Ok(Seq::empty())
        } else if magic != BLOCK_MAGIC {
            Err(ScanError::BadMagic { offset: pos as usize })
        } else {
            let header = spec_header(buf.subrange(pos + 8, pos + 88))->Some_0;
            if pos + 8 + length >= buf.len() {
                Ok(seq![(pos + 8, length, header)])
            } else {
                match spec_scan(buf, pos + 8 + length) {
                    Ok(rest) => Ok(seq![(pos + 8, length, header)] + rest),
                    Err(e) => Err(e),
                }
            }
        }
    }
}

pub open spec fn file_block_view(b: FileBlock) -> (int, int, (Seq<u8>, Seq<u8>)) {
    (b.offset as int, b.length as int, header_view(b.header))
}

/// The all-zero hash that genesis names as its parent.
pub open spec fn is_zero_hash(h: [u8; 32]) -> bool {
    forall|i: int| 0 <= i < 32 ==> #[trigger] h@[i] == 0
}

/// `chain` is a chain of blocks of `blocks`: it starts at genesis, each
/// block's parent is the one before it, and each block is one of `blocks`.
pub open spec fn is_chain_of(blocks: Seq<FileBlock>, chain: Seq<FileBlock>) -> bool {
    &&& chain.len() > 0 ==> is_zero_hash(chain[0].header.previous_block_hash)
    &&& forall|i: int| 0 < i < chain.len() ==> #[trigger] chain[i].header.previous_block_hash == chain[i - 1].header.hash
    &&& forall|i: int| 0 <= i < chain.len() ==> exists|j: int| 0 <= j < blocks.len()
        && #[trigger] blocks[j].header == #[trigger] chain[i].header && blocks[j].file_path == chain[i].file_path
        && blocks[j].offset == chain[i].offset && blocks[j].length == chain[i].length
}

/// Every chain of `blocks` with `d + 1` blocks ends at the hash of the block
/// of some node in `nodes[from..to]`.
pub open spec fn level_covers(blocks: Seq<FileBlock>, nodes: Seq<(usize, Option<usize>)>, from: int, to: int, d: int) -> bool {
    forall|s: Seq<FileBlock>| #[trigger] is_chain_of(blocks, s) && s.len() == d + 1 ==> exists|m: int|
        from <= m < to && #[trigger] blocks[nodes[m].0 as int].header.hash == s[d].header.hash
}

/// A chain longer than the list of blocks it is made of repeats a block.
pub proof fn lemma_long_chain_repeats(blocks: Seq<FileBlock>, chain: Seq<FileBlock>)
    requires
        is_chain_of(blocks, chain),
    ensures
        chain.len() > blocks.len() ==> exists|i: int, j: int| 0 <= i < j < chain.len() && chain[i].header == chain[j].header,
{
    if chain.len() > blocks.len() {
        let picks = Seq::new(chain.len(), |i: int| choose|j: int| 0 <= j < blocks.len() && #[trigger] blocks[j].header == chain[i].header);
        assert forall|i: int| 0 <= i < picks.len() implies 0 <= #[trigger] picks[i] < blocks.len() && blocks[picks[i]].header
            == chain[i].header by {
            let j = choose|j: int| 0 <= j < blocks.len() && #[trigger] blocks[j].header == #[trigger] chain[i].header
                && blocks[j].file_path == chain[i].file_path && blocks[j].offset == chain[i].offset && blocks[j].length
                == chain[i].length;
            assert(blocks[j].header == chain[i].header);
        }
        crate::counting::lemma_pigeonhole(picks, blocks.len() as int);
        let (a, b) = choose|a: int, b: int| 0 <= a < b < picks.len() && picks[a] == picks[b];
        assert(chain[a].header == blocks[picks[a]].header);
        assert(chain[b].header == blocks[picks[b]].header);
    }
}

/// A prefix of a chain is a chain.
pub proof fn lemma_chain_prefix(blocks: Seq<FileBlock>, s: Seq<FileBlock>, k: int)
    requires
        is_chain_of(blocks, s),
        0 <= k <= s.len(),
    ensures
        is_chain_of(blocks, s.subrange(0, k)),
{
    let p = s.subrange(0, k);
    assert forall|i: int| 0 < i < p.len() implies #[trigger] p[i].header.previous_block_hash == p[i - 1].header.hash by {
        assert(p[i] == s[i] && p[i - 1] == s[i - 1]);
    }
    assert forall|i: int| 0 <= i < p.len() implies exists|j: int| 0 <= j < blocks.len()
        && #[trigger] blocks[j].header == #[trigger] p[i].header && blocks[j].file_path == p[i].file_path
        && blocks[j].offset == p[i].offset && blocks[j].length == p[i].length by {
        assert(p[i] == s[i]);
    }
    if p.len() > 0 {
        assert(p[0] == s[0]);
    }
}

/// A block whose parent is `parent` does not extend `chain`.
pub open spec fn extends_nothing(chain: Seq<FileBlock>, parent: [u8; 32]) -> bool {
    if chain.len() == 0 {
        !is_zero_hash(parent)
    } else {
        parent != chain.last().header.hash
    }
}

/// No block names `hash` as its parent.
pub open spec fn no_children(children: Map<[u8; 32], Vec<usize>>, hash: [u8; 32]) -> bool {
    !children.contains_key(hash) || children[hash]@.len() == 0
}

/// For each parent hash, the indexes of the blocks that name it: every
/// listed block names it, and every block is listed under its parent.
pub open spec fn children_ok(blocks: Seq<FileBlock>, children: Map<[u8; 32], Vec<usize>>) -> bool {
    &&& forall|key: [u8; 32], k: int| children.contains_key(key) && 0 <= k < children[key]@.len()
        ==> #[trigger] children[key]@[k] < blocks.len() && blocks[children[key]@[k] as int].header.previous_block_hash == key
    &&& forall|i: int| 0 <= i < blocks.len() ==> children.contains_key(#[trigger] blocks[i].header.previous_block_hash)
        && children[blocks[i].header.previous_block_hash]@.contains(i as usize)
}

/// Each node is a block and the node of its parent (none at genesis), and
/// its depth counts the nodes back to genesis.
pub open spec fn nodes_ok(blocks: Seq<FileBlock>, nodes: Seq<(usize, Option<usize>)>, depths: Seq<usize>) -> bool {
    &&& nodes.len() == depths.len()
    &&& forall|m: int| 0 <= m < nodes.len() ==> node_ok(blocks, nodes, depths, m)
}

pub open spec fn node_ok(blocks: Seq<FileBlock>, nodes: Seq<(usize, Option<usize>)>, depths: Seq<usize>, m: int) -> bool {
    &&& nodes[m].0 < blocks.len()
    &&& match nodes[m].1 {
        None => is_zero_hash(blocks[nodes[m].0 as int].header.previous_block_hash) && depths[m] == 0,
        Some(p) => {
            &&& p < m
            &&& blocks[nodes[m].0 as int].header.previous_block_hash == blocks[nodes[p as int].0 as int].header.hash
            &&& depths[m] == depths[p as int] + 1
        },
    }
}

fn build_children(blocks: &Vec<FileBlock>) -> (r: U64HashMap<[u8; 32], Vec<usize>>)
    ensures
        r.wf(),
        children_ok(blocks@, r@),
{
    let n = blocks.len();
    let mut children: U64HashMap<[u8; 32], Vec<usize>> = U64HashMap::with_capacity(n);
    let mut j: usize = 0;
    while j < n
        invariant
            n == blocks@.len(),
            j <= n,
            children.wf(),
            forall|key: [u8; 32], k: int| children@.contains_key(key) && 0 <= k < children@[key]@.len()
                ==> #[trigger] children@[key]@[k] < n && blocks@[children@[key]@[k] as int].header.previous_block_hash == key,
            forall|i: int| 0 <= i < j ==> children@.contains_key(#[trigger] blocks@[i].header.previous_block_hash)
                && children@[blocks@[i].header.previous_block_hash]@.contains(i as usize),
        decreases n - j,
    {
        let key = blocks[j].header.previous_block_hash;
        let mut list = match children.remove(&key) {
            Some(list) => list,
            None => Vec::new(),
        };
        let ghost before = list@;
        list.push(j);
        assert(list@[list@.len() - 1] == j);
        proof {
            assert forall|i: int| 0 <= i < j && blocks@[i].header.previous_block_hash == key implies list@.contains(i as usize) by {
                let k = choose|k: int| 0 <= k < before.len() && before[k] == i as usize;
                assert(list@[k] == i as usize);
            }
        }
        children.insert(key, list);
        j = j + 1;
    }
    children
}

/// Appends a node for each block whose parent is `hash`, under node
/// `parent` (none for genesis) and at `depth`; returns whether it appended any.
fn expand(
    blocks: &Vec<FileBlock>,
    children: &U64HashMap<[u8; 32], Vec<usize>>,
    nodes: &mut Vec<(usize, Option<usize>)>,
    depths: &mut Vec<usize>,
    hash: &[u8; 32],
    parent: Option<usize>,
    depth: usize,
) -> (r: bool)
    requires
        children.wf(),
        children_ok(blocks@, children@),
        nodes_ok(blocks@, old(nodes)@, old(depths)@),
        match parent {
            None => is_zero_hash(*hash) && depth == 0,
            Some(p) => p < old(nodes)@.len() && *hash == blocks@[old(nodes)@[p as int].0 as int].header.hash
                && depth == old(depths)@[p as int] + 1,
        },
    ensures
        nodes_ok(blocks@, final(nodes)@, final(depths)@),
        final(nodes)@.len() >= old(nodes)@.len(),
        final(nodes)@.subrange(0, old(nodes)@.len() as int) == old(nodes)@,
        final(depths)@.subrange(0, old(depths)@.len() as int) == old(depths)@,
        forall|x: int| old(nodes)@.len() <= x < final(nodes)@.len() ==> #[trigger] final(depths)@[x] == depth,
        r == (final(nodes)@.len() > old(nodes)@.len()),
        !r ==> no_children(children@, *hash),
        forall|i: int| 0 <= i < blocks@.len() && #[trigger] blocks@[i].header.previous_block_hash == *hash ==> exists|y: int|
            old(nodes)@.len() <= y < final(nodes)@.len() && #[trigger] final(nodes)@[y].0 == i as usize,
{
    let n = blocks.len();
    let start = nodes.len();
    match children.get(hash) {
        Some(list) => {
            let mut k: usize = 0;
            while k < list.len()
                invariant
                    n == blocks@.len(),
                    children_ok(blocks@, children@),
                    children@.contains_key(*hash),
                    list@ == children@[*hash]@,
                    k <= list@.len(),
                    start == old(nodes)@.len(),
                    nodes@.len() == start + k,
                    nodes_ok(blocks@, nodes@, depths@),
                    nodes@.subrange(0, start as int) == old(nodes)@,
                    depths@.subrange(0, start as int) == old(depths)@,
                    forall|x: int| start <= x < nodes@.len() ==> #[trigger] depths@[x] == depth,
                    forall|q: int| 0 <= q < k ==> #[trigger] nodes@[start + q].0 == list@[q],
                    match parent {
                        None => is_zero_hash(*hash) && depth == 0,
                        Some(p) => p < start && *hash == blocks@[old(nodes)@[p as int].0 as int].header.hash
                            && depth == old(depths)@[p as int] + 1,
                    },
                decreases list@.len() - k,
            {
                let ghost before_nodes = nodes@;
                let ghost before_depths = depths@;
                assert(children@[*hash]@[k as int] < n);
                assert(blocks@[list@[k as int] as int].header.previous_block_hash == *hash);
                nodes.push((list[k], parent));
                depths.push(depth);
                proof {
                    assert(nodes@.subrange(0, start as int) =~= before_nodes.subrange(0, start as int));
                    assert(depths@.subrange(0, start as int) =~= before_depths.subrange(0, start as int));
                    assert forall|m: int| 0 <= m < nodes@.len() implies node_ok(blocks@, nodes@, depths@, m) by {
                        if m < before_nodes.len() {
                            assert(node_ok(blocks@, before_nodes, before_depths, m));
                            assert(nodes@[m] == before_nodes[m]);
                            match nodes@[m].1 {
                                Some(p) => assert(nodes@[p as int] == before_nodes[p as int]),
                                None => {},
                            }
                        } else {
                            match parent {
                                Some(p) => {
                                    assert(old(nodes)@[p as int] == old(nodes)@.subrange(0, start as int)[p as int]);
                                    assert(nodes@[p as int] == before_nodes[p as int]);
                                    assert(before_nodes[p as int] == before_nodes.subrange(0, start as int)[p as int]);
                                    assert(depths@[p as int] == before_depths.subrange(0, start as int)[p as int]);
                                },
                                None => {},
                            }
                        }
                    }
                }
                k = k + 1;
            }
            proof {
                assert forall|i: int| 0 <= i < blocks@.len() && #[trigger] blocks@[i].header.previous_block_hash == *hash implies exists|y: int|
                    start <= y < nodes@.len() && #[trigger] nodes@[y].0 == i as usize by {
                    assert(children@[*hash]@.contains(i as usize));
                    let q = choose|q: int| 0 <= q < list@.len() && list@[q] == i as usize;
                    assert(nodes@[start + q].0 == list@[q]);
                }
            }
            k > 0
        },
        None => {
            proof {
                assert forall|i: int| 0 <= i < blocks@.len() && #[trigger] blocks@[i].header.previous_block_hash == *hash implies false by {
                    assert(children@.contains_key(blocks@[i].header.previous_block_hash));
                }
            }
            false
        },
    }
}

/// The chain that ends at node `tip`, genesis first, each block at its depth.
fn walk_back(blocks: &Vec<FileBlock>, nodes: &Vec<(usize, Option<usize>)>, depths: &Vec<usize>, tip: usize) -> (r: Vec<FileBlock>)
    requires
        nodes_ok(blocks@, nodes@, depths@),
        tip < nodes@.len(),
    ensures
        is_chain_of(blocks@, r@),
        r@.len() == depths@[tip as int] + 1,
        r@.last().header.hash == blocks@[nodes@[tip as int].0 as int].header.hash,
        forall|i: int| 0 <= i < r@.len() ==> (#[trigger] r@[i]).height == i,
{
    let n = blocks.len();
    let mut reversed: Vec<FileBlock> = Vec::new();
    let mut next: Option<usize> = Some(tip);
    assert(node_ok(blocks@, nodes@, depths@, tip as int));
    while next.is_some()
        invariant
            n == blocks@.len(),
            nodes_ok(blocks@, nodes@, depths@),
            tip < nodes@.len(),
            reversed@.len() == 0 ==> next == Some(tip),
            reversed@.len() > 0 ==> reversed@[0].header.hash == blocks@[nodes@[tip as int].0 as int].header.hash,
            match next {
                Some(c) => c < nodes@.len() && reversed@.len() + depths@[c as int] == depths@[tip as int]
                    && (reversed@.len() > 0 ==> reversed@.last().header.previous_block_hash == blocks@[nodes@[c as int].0 as int].header.hash),
                None => reversed@.len() == depths@[tip as int] + 1 && reversed@.len() > 0
                    && is_zero_hash(reversed@.last().header.previous_block_hash),
            },
            forall|t: int| 0 < t < reversed@.len() ==> #[trigger] reversed@[t].header.hash == reversed@[t - 1].header.previous_block_hash,
            forall|t: int| 0 <= t < reversed@.len() ==> (#[trigger] reversed@[t]).height == depths@[tip as int] - t,
            forall|t: int| 0 <= t < reversed@.len() ==> exists|j: int| 0 <= j < blocks@.len()
                && #[trigger] blocks@[j].header == #[trigger] reversed@[t].header && blocks@[j].file_path == reversed@[t].file_path
                && blocks@[j].offset == reversed@[t].offset && blocks@[j].length == reversed@[t].length,
        decreases match next { Some(c) => c + 1, None => 0 },
    {
        let current = next.unwrap();
        assert(node_ok(blocks@, nodes@, depths@, current as int));
        let index = nodes[current].0;
        let block = blocks[index].at_height(depths[current]);
        assert(blocks@[index as int].header == block.header);
        reversed.push(block);
        next = nodes[current].1;
    }
    let mut chain: Vec<FileBlock> = Vec::new();
    let ghost all = reversed@;
    while reversed.len() > 0
        invariant
            reversed@ == all.subrange(0, reversed@.len() as int),
            chain@ == all.subrange(reversed@.len() as int, all.len() as int).reverse(),
            reversed@.len() <= all.len(),
        decreases reversed@.len(),
    {
        let b = reversed.pop().unwrap();
        chain.push(b);
        assert(chain@ =~= all.subrange(reversed@.len() as int, all.len() as int).reverse());
    }
    assert(chain@ =~= all.reverse());
    proof {
        assert forall|i: int| 0 < i < chain@.len() implies #[trigger] chain@[i].header.previous_block_hash
            == chain@[i - 1].header.hash by {
            let t = all.len() - 1 - i;
            assert(chain@[i] == all[t] && chain@[i - 1] == all[t + 1]);
        }
        assert forall|i: int| 0 <= i < chain@.len() implies (#[trigger] chain@[i]).height == i by {
            assert(chain@[i] == all[all.len() - 1 - i]);
        }
        assert forall|i: int| 0 <= i < chain@.len() implies exists|j: int| 0 <= j < blocks@.len()
            && #[trigger] blocks@[j].header == #[trigger] chain@[i].header && blocks@[j].file_path == chain@[i].file_path
            && blocks@[j].offset == chain@[i].offset && blocks@[j].length == chain@[i].length by {
            assert(chain@[i] == all[all.len() - 1 - i]);
        }
        assert(chain@[0] == all[all.len() - 1]);
        assert(chain@.last() == all[0]);
    }
    chain
}

/// `blk`, five decimal digits, `.dat`: the name of a block file.
pub open spec fn is_block_file_name_spec(name: Seq<u8>) -> bool {
    &&& name.len() == 12
    &&& name[0] == 0x62 && name[1] == 0x6C && name[2] == 0x6B
    &&& forall|i: int| 3 <= i < 8 ==> 0x30 <= #[trigger] name[i] <= 0x39
    &&& name[8] == 0x2E && name[9] == 0x64 && name[10] == 0x61 && name[11] == 0x74
}

/// Whether `name` is the name of a block file, `blkNNNNN.dat`.
pub fn is_block_file_name(name: &str) -> (r: bool)
    ensures
        r == is_block_file_name_spec(name.spec_bytes()),
{
    let bytes = name.as_bytes();
    if bytes.len() != 12 {
        return false;
    }
    let b = bytes;
    let ok = b[0] == 0x62 && b[1] == 0x6C && b[2] == 0x6B && b[8] == 0x2E && b[9] == 0x64 && b[10] == 0x61
        && b[11] == 0x74 && 0x30 <= b[3] && b[3] <= 0x39 && 0x30 <= b[4] && b[4] <= 0x39 && 0x30 <= b[5]
        && b[5] <= 0x39 && 0x30 <= b[6] && b[6] <= 0x39 && 0x30 <= b[7] && b[7] <= 0x39;
    ok
}

/// Reads the blocks of the block files in a directory.
#[derive(Debug, Clone)]
pub struct BlockFileReader {
    path: String,
}

impl BlockFileReader {
    pub closed spec fn spec_path(&self) -> Seq<char> {
        self.path@
    }

    pub fn new(path: &str) -> (r: Self)
        ensures
            r.spec_path() == path@,
    {
        BlockFileReader { path: path.to_owned() }
    }

    /// The directory that holds the block files.
    pub fn path(&self) -> (r: &str)
        ensures
            r@ == self.spec_path(),
    {
        self.path.as_str()
    }

    /// The longest chain of `blocks` that starts at genesis, found by walking
    /// from the all-zero parent to children one generation at a time; among
    /// the deepest tips the first found wins. Heights count from genesis at 0.
    pub fn find_longest_chain(blocks: Vec<FileBlock>) -> (r: Vec<FileBlock>)
        ensures
            is_chain_of(blocks@, r@),
            forall|i: int| 0 <= i < r@.len() ==> (#[trigger] r@[i]).height == i,
            r@.len() < blocks@.len() ==> forall|j: int| 0 <= j < blocks@.len() ==> extends_nothing(
                r@,
                #[trigger] blocks@[j].header.previous_block_hash,
            ),
            r@.len() <= blocks@.len() ==> forall|s: Seq<FileBlock>| #[trigger] is_chain_of(blocks@, s) ==> s.len() <= r@.len(),
            r@.len() > blocks@.len() ==> exists|i: int, j: int| 0 <= i < j < r@.len() && r@[i].header == r@[j].header,
    {
        let n = blocks.len();
        let children = build_children(&blocks);
        let zero = [0u8; 32];
        assert(is_zero_hash(zero));
        let mut nodes: Vec<(usize, Option<usize>)> = Vec::new();
        let mut depths: Vec<usize> = Vec::new();
        let roots = expand(&blocks, &children, &mut nodes, &mut depths, &zero, None, 0);
        if !roots {
            proof {
                assert forall|i: int| 0 <= i < blocks@.len() implies extends_nothing(
                    Seq::empty(),
                    #[trigger] blocks@[i].header.previous_block_hash,
                ) by {
                    let h = blocks@[i].header.previous_block_hash;
                    if is_zero_hash(h) {
                        assert(h@ =~= zero@);
                        vstd::array::axiom_array_ext_equal(h, zero);
                        assert(children@.contains_key(h) && children@[h]@.contains(i as usize));
                    }
                }
            }
            return Vec::new();
        }
        proof {
            assert forall|s: Seq<FileBlock>| #[trigger] is_chain_of(blocks@, s) && s.len() == 1 implies exists|m: int|
                0 <= m < nodes@.len() && #[trigger] blocks@[nodes@[m].0 as int].header.hash == s[0].header.hash by {
                let j = choose|j: int| 0 <= j < blocks@.len() && #[trigger] blocks@[j].header == #[trigger] s[0].header
                    && blocks@[j].file_path == s[0].file_path && blocks@[j].offset == s[0].offset && blocks@[j].length == s[0].length;
                let h = blocks@[j].header.previous_block_hash;
                assert(h@ =~= zero@);
                vstd::array::axiom_array_ext_equal(h, zero);
                let y = choose|y: int| 0 <= y < nodes@.len() && #[trigger] nodes@[y].0 == j as usize;
                assert(blocks@[nodes@[y].0 as int].header.hash == s[0].header.hash);
            }
        }
        let mut level_start: usize = 0;
        let mut depth: usize = 0;
        let mut stopped = false;
        while depth < n && !stopped
            invariant
                n == blocks@.len(),
                children_ok(blocks@, children@),
                children.wf(),
                nodes_ok(blocks@, nodes@, depths@),
                level_start < nodes@.len(),
                depth <= n,
                depths@[level_start as int] == depth,
                forall|x: int| level_start <= x < nodes@.len() ==> #[trigger] depths@[x] == depth,
                stopped ==> no_children(children@, blocks@[nodes@[level_start as int].0 as int].header.hash),
                level_covers(blocks@, nodes@, level_start as int, nodes@.len() as int, depth as int),
                stopped ==> forall|s: Seq<FileBlock>| #[trigger] is_chain_of(blocks@, s) ==> s.len() <= depth + 1,
            decreases n - depth + (if stopped { 0int } else { 1int }),
        {
            let level_end = nodes.len();
            let mut m: usize = level_start;
            while m < level_end
                invariant
                    n == blocks@.len(),
                    children_ok(blocks@, children@),
                    children.wf(),
                    nodes_ok(blocks@, nodes@, depths@),
                    level_start < level_end <= nodes@.len(),
                    level_start <= m <= level_end,
                    depths@[level_start as int] == depth,
                    depth < n,
                    forall|x: int| level_start <= x < level_end ==> #[trigger] depths@[x] == depth,
                    forall|x: int| level_end <= x < nodes@.len() ==> #[trigger] depths@[x] == depth + 1,
                    nodes@.len() == level_end && m > level_start ==> no_children(
                        children@,
                        blocks@[nodes@[level_start as int].0 as int].header.hash,
                    ),
                    nodes@.len() > level_end ==> depths@[level_end as int] == depth + 1,
                    level_covers(blocks@, nodes@, level_start as int, level_end as int, depth as int),
                    forall|x: int, i: int| level_start <= x < m && 0 <= i < blocks@.len()
                        && #[trigger] blocks@[i].header.previous_block_hash == #[trigger] blocks@[nodes@[x].0 as int].header.hash
                        ==> exists|y: int| level_end <= y < nodes@.len() && #[trigger] nodes@[y].0 == i as usize,
                decreases level_end - m,
            {
                assert(node_ok(blocks@, nodes@, depths@, m as int));
                let hash = blocks[nodes[m].0].header.hash;
                let ghost before_nodes = nodes@;
                let ghost before_depths = depths@;
                expand(&blocks, &children, &mut nodes, &mut depths, &hash, Some(m), depth + 1);
                proof {
                    assert forall|x: int| 0 <= x < before_nodes.len() implies #[trigger] depths@[x] == before_depths[x]
                        && nodes@[x] == before_nodes[x] by {
                        assert(nodes@.subrange(0, before_nodes.len() as int)[x] == nodes@[x]);
                        assert(depths@.subrange(0, before_depths.len() as int)[x] == depths@[x]);
                    }
                }
                assert forall|x: int| level_start <= x < level_end implies #[trigger] depths@[x] == depth by {
                    assert(depths@[x] == before_depths[x]);
                }
                assert forall|x: int, i: int| level_start <= x < m + 1 && 0 <= i < blocks@.len()
                    && #[trigger] blocks@[i].header.previous_block_hash == #[trigger] blocks@[nodes@[x].0 as int].header.hash
                    implies exists|y: int| level_end <= y < nodes@.len() && #[trigger] nodes@[y].0 == i as usize by {
                    assert(nodes@[x] == before_nodes[x]);
                    if x < m {
                        let y = choose|y: int| level_end <= y < before_nodes.len() && #[trigger] before_nodes[y].0 == i as usize;
                        assert(nodes@[y] == before_nodes[y]);
                    } else {
                        assert(blocks@[i].header.previous_block_hash == hash);
                    }
                }
                assert forall|s: Seq<FileBlock>| #[trigger] is_chain_of(blocks@, s) && s.len() == depth + 1 implies exists|mm: int|
                    level_start <= mm < level_end && #[trigger] blocks@[nodes@[mm].0 as int].header.hash == s[depth as int].header.hash by {
                    let mm = choose|mm: int| level_start <= mm < level_end && #[trigger] blocks@[before_nodes[mm].0 as int].header.hash
                        == s[depth as int].header.hash;
                    assert(nodes@[mm] == before_nodes[mm]);
                }
                assert forall|x: int| level_end <= x < nodes@.len() implies #[trigger] depths@[x] == depth + 1 by {
                    if x < before_depths.len() {
                        assert(depths@[x] == before_depths[x]);
                    }
                }
                assert(nodes@.len() > level_end ==> depths@[level_end as int] == depth + 1);
                m = m + 1;
            }
            proof {
                assert forall|s: Seq<FileBlock>| #[trigger] is_chain_of(blocks@, s) && s.len() == depth + 2 implies exists|mm: int|
                    level_end <= mm < nodes@.len() && #[trigger] blocks@[nodes@[mm].0 as int].header.hash == s[depth + 1].header.hash by {
                    let p = s.subrange(0, depth + 1);
                    lemma_chain_prefix(blocks@, s, depth + 1);
                    assert(is_chain_of(blocks@, p) && p.len() == depth + 1);
                    let x = choose|x: int| level_start <= x < level_end && #[trigger] blocks@[nodes@[x].0 as int].header.hash
                        == p[depth as int].header.hash;
                    let j = choose|j: int| 0 <= j < blocks@.len() && #[trigger] blocks@[j].header == #[trigger] s[depth + 1].header
                        && blocks@[j].file_path == s[depth + 1].file_path && blocks@[j].offset == s[depth + 1].offset
                        && blocks@[j].length == s[depth + 1].length;
                    assert(s[depth + 1].header.previous_block_hash == s[depth as int].header.hash);
                    assert(blocks@[j].header.previous_block_hash == blocks@[nodes@[x].0 as int].header.hash);
                    let y = choose|y: int| level_end <= y < nodes@.len() && #[trigger] nodes@[y].0 == j as usize;
                    assert(blocks@[nodes@[y].0 as int].header.hash == s[depth + 1].header.hash);
                }
            }
            if nodes.len() == level_end {
                proof {
                    assert forall|s: Seq<FileBlock>| #[trigger] is_chain_of(blocks@, s) implies s.len() <= depth + 1 by {
                        if s.len() > depth + 1 {
                            lemma_chain_prefix(blocks@, s, depth + 2);
                            let p = s.subrange(0, depth + 2);
                            assert(is_chain_of(blocks@, p) && p.len() == depth + 2);
                        }
                    }
                }
                stopped = true;
            } else {
                level_start = level_end;
                depth = depth + 1;
            }
        }
        let chain = walk_back(&blocks, &nodes, &depths, level_start);
        proof {
            lemma_long_chain_repeats(blocks@, chain@);
            if chain@.len() < blocks@.len() {
                assert(stopped);
                let h = chain@.last().header.hash;
                assert forall|j: int| 0 <= j < blocks@.len() implies extends_nothing(
                    chain@,
                    #[trigger] blocks@[j].header.previous_block_hash,
                ) by {
                    if blocks@[j].header.previous_block_hash == h {
                        assert(children@.contains_key(h) && children@[h]@.contains(j as usize));
                    }
                }
            }
        }
        chain
    }

    /// The blocks of one block file, whose bytes are `bytes`, in file order.
    pub fn scan_block_file(file_path: &str, bytes: &[u8]) -> (r: Result<Vec<FileBlock>, ScanError>)
        ensures
            match r {
                Ok(blocks) => spec_scan(bytes@, 0) == Ok::<_, ScanError>(blocks@.map_values(|b: FileBlock| file_block_view(b)))
                    && forall|i: int| 0 <= i < blocks@.len() ==> (#[trigger] blocks@[i]).height == 0 && blocks@[i].file_path@ == file_path@,
                Err(e) => spec_scan(bytes@, 0) == Err::<Seq<(int, int, (Seq<u8>, Seq<u8>))>, ScanError>(e),
            },
    {
        let mut blocks: Vec<FileBlock> = Vec::new();
        let mut pos: usize = 0;
        let ghost mut done: Seq<(int, int, (Seq<u8>, Seq<u8>))> = Seq::empty();
        while pos < bytes.len()
            invariant
                pos <= bytes@.len() || pos as int >= bytes@.len(),
                blocks@.map_values(|b: FileBlock| file_block_view(b)) == done,
                forall|i: int| 0 <= i < blocks@.len() ==> (#[trigger] blocks@[i]).height == 0 && blocks@[i].file_path@ == file_path@,
                spec_scan(bytes@, 0) == match spec_scan(bytes@, pos as int) {
                    Ok(rest) => Ok(done + rest),
                    Err(e) => Err(e),
                },
            decreases bytes@.len() - pos,
        {
            if bytes.len() - pos < 88 {
                return Err(ScanError::Truncated { offset: pos });
            }
            let mut reader = HashingBufferReader::new(bytes);
            reader.skip(pos, false);
            let magic = reader.read_u32_le(false).unwrap();
            let length = reader.read_u32_le(false).unwrap();
            if magic == 0 {
                assert(done + Seq::empty() =~= done);
                return Ok(blocks);
            }
            if magic != BLOCK_MAGIC {
                return Err(ScanError::BadMagic { offset: pos });
            }
            let header_bytes = reader.read_buffer(80, false).unwrap();
            let header = BlockHeader::from_buffer(header_bytes).unwrap();
            proof {
                assert(header_bytes@ =~= bytes@.subrange(pos + 8, pos + 88));
            }
            let ghost entry = (pos + 8, length as int, header_view(header));
            let ghost before = done;
            blocks.push(FileBlock { file_path: file_path.to_owned(), offset: pos as u64 + 8, length: length as usize, header, height: 0 });
            proof {
                assert(blocks@.map_values(|b: FileBlock| file_block_view(b)) =~= before.push(entry));
                done = before.push(entry);
                assert(le_value(bytes@.subrange(pos as int, pos + 4)) == magic);
                assert(le_value(bytes@.subrange(pos + 4, pos + 8)) == length);
            }
            if (bytes.len() - pos - 8) as u64 <= length as u64 {
                proof {
                    assert(spec_scan(bytes@, pos as int) == Ok::<_, ScanError>(seq![entry]));
                    assert(before + seq![entry] =~= done);
                }
                return Ok(blocks);
            }
            proof {
                match spec_scan(bytes@, pos + 8 + length) {
                    Ok(rest) => {
                        assert(spec_scan(bytes@, pos as int) == Ok::<_, ScanError>(seq![entry] + rest));
                        assert(before + (seq![entry] + rest) =~= done + rest);
                    },
                    Err(_) => {},
                }
            }
            pos = pos + 8 + length as usize;
        }
        assert(done + Seq::empty() =~= done);
        Ok(blocks)
    }
}

} // verus!
