//! DEFLATE (RFC 1951) decoding and the gzip (RFC 1952) container.
use vstd::prelude::*;

verus! {

/// Why decoding failed.
#[derive(Debug, Clone, PartialEq, Eq)]
pub enum InflateError {
    Corrupt(&'static str),
    OutputTooLarge { limit: usize },
}

/// Bit `k` of `data`, bits taken least significant first within each byte.
pub open spec fn bit_at(data: Seq<u8>, k: int) -> u32 {
    ((data[k / 8] >> ((k % 8) as u8)) & 1u8) as u32
}

/// Value of the `n` bits of `data` from bit `p`, first bit least significant.
pub open spec fn bits_value(data: Seq<u8>, p: int, n: nat) -> nat
    decreases n,
{
    if n == 0 {
        0
    } else {
        bits_value(data, p, (n - 1) as nat) + (bit_at(data, p + n - 1) as nat) * vstd::arithmetic::power2::pow2((n - 1) as nat)
    }
}

proof fn lemma_bit_at_small(data: Seq<u8>, k: int)
    ensures
        bit_at(data, k) <= 1,
{
    let x = data[k / 8];
    let sh = (k % 8) as u8;
    assert((x >> sh) & 1u8 <= 1u8) by (bit_vector);
}

/// `r` is a corruption error with message `msg`.
pub open spec fn fails_with<T>(r: Result<T, InflateError>, msg: Seq<char>) -> bool {
    r matches Err(InflateError::Corrupt(m)) && m@ == msg
}

/// Reader of a byte slice bit by bit (least significant bit first).
struct BitReader<'a> {
    data: &'a [u8],
    pos: usize,
    bitbuf: u32,
    bitcnt: u32,
}

impl<'a> BitReader<'a> {
    spec fn wf(&self) -> bool {
        &&& self.pos <= self.data@.len()
        &&& self.bitcnt < 8
        &&& self.bitcnt > 0 ==> self.pos >= 1 && self.bitbuf == (self.data@[self.pos - 1] as u32)
            >> ((8 - self.bitcnt) as u32)
    }

    /// Index of the next bit.
    spec fn bitpos(&self) -> int {
        self.pos * 8 - self.bitcnt
    }

    /// Bits left to read.
    spec fn remaining(&self) -> int {
        self.data@.len() * 8 - self.bitpos()
    }

    fn new(data: &'a [u8], start: usize) -> (r: Self)
        requires
            start <= data@.len(),
        ensures
            r.wf(),
            r.data@ == data@,
            r.bitpos() == start * 8,
    {
        BitReader { data, pos: start, bitbuf: 0, bitcnt: 0 }
    }

    fn read_bit(&mut self) -> (r: Result<u32, InflateError>)
        requires
            old(self).wf(),
        ensures
            final(self).wf(),
            final(self).data@ == old(self).data@,
            old(self).remaining() == 0 ==> fails_with(r, "bitstream end"@),
            old(self).remaining() > 0 ==> r == Ok::<u32, InflateError>(
                bit_at(old(self).data@, old(self).bitpos()),
            ) && final(self).bitpos() == old(self).bitpos() + 1,
            r is Err ==> final(self).bitpos() == old(self).bitpos(),
            final(self).remaining() >= 0,
    {
        if self.bitcnt == 0 {
            if self.pos >= self.data.len() {
                return Err(InflateError::Corrupt("bitstream end"));
            }
            self.bitbuf = self.data[self.pos] as u32;
            self.pos = self.pos + 1;
            self.bitcnt = 8;
            let ghost x: u8 = self.data@[self.pos - 1];
            assert((x as u32) >> 0u32 == x as u32) by (bit_vector);
        }
        let ghost k = self.bitpos();
        let ghost byte = self.data@[self.pos - 1];
        let ghost sh = 8 - self.bitcnt;
        assert(k / 8 == self.pos - 1 && k % 8 == sh) by (nonlinear_arith)
            requires
                k == self.pos * 8 - self.bitcnt,
                1 <= self.bitcnt <= 8,
                self.pos >= 1,
                sh == 8 - self.bitcnt,
        ;
        let b: u32 = self.bitbuf & 1;
        let ghost cnt = self.bitcnt;
        let ghost buf = self.bitbuf;
        self.bitbuf = self.bitbuf >> 1;
        self.bitcnt = self.bitcnt - 1;
        let ghost nb = self.bitbuf;
        proof {
            let s = sh as u32;
            assert(b == ((byte >> (s as u8)) & 1u8) as u32 && nb == (byte as u32) >> (s + 1))
                by (bit_vector)
                requires
                    buf == (byte as u32) >> s,
                    b == buf & 1,
                    nb == buf >> 1,
                    s < 8,
            ;
        }
        Ok(b)
    }

    fn read_bits(&mut self, n: u32) -> (r: Result<u32, InflateError>)
        requires
            old(self).wf(),
            n <= 16,
        ensures
            final(self).wf(),
            final(self).data@ == old(self).data@,
            old(self).remaining() >= n ==> r == Ok::<u32, InflateError>(
                bits_value(old(self).data@, old(self).bitpos(), n as nat) as u32,
            ) && final(self).bitpos() == old(self).bitpos() + n,
            old(self).remaining() < n ==> fails_with(r, "bitstream end"@),
            final(self).remaining() >= 0,
            final(self).bitpos() >= old(self).bitpos(),
            r matches Ok(v) ==> (v as nat) < vstd::arithmetic::power2::pow2(n as nat),
    {
        let mut v: u32 = 0;
        let mut mult: u32 = 1;
        let mut i: u32 = 0;
        proof {
            vstd::arithmetic::power2::lemma2_to64();
        }
        while i < n
            invariant
                self.wf(),
                self.data@ == old(self).data@,
                i <= n <= 16,
                self.bitpos() == old(self).bitpos() + i,
                v == bits_value(old(self).data@, old(self).bitpos(), i as nat),
                mult == vstd::arithmetic::power2::pow2(i as nat),
                mult <= 0x10000,
                v < mult,
            decreases n - i,
        {
            let b: u32 = match self.read_bit() {
                Ok(b) => b,
                Err(e) => {
                    return Err(e);
                },
            };
            proof {
                vstd::arithmetic::power2::lemma_pow2_unfold((i + 1) as nat);
                vstd::arithmetic::power2::lemma2_to64();
                lemma_bit_at_small(old(self).data@, old(self).bitpos() + i);
            }
            assert(b * mult <= mult) by (nonlinear_arith)
                requires
                    b <= 1,
            ;
            v = v + b * mult;
            proof {
                vstd::arithmetic::power2::lemma_pow2_unfold((i + 1) as nat);
            }
            if i + 1 < 32 {
                proof {
                    vstd::arithmetic::power2::lemma2_to64();
                    if i + 1 < 16 {
                        vstd::arithmetic::power2::lemma_pow2_strictly_increases((i + 1) as nat, 16);
                    }
                }
                mult = mult * 2;
            }
            i = i + 1;
        }
        Ok(v)
    }

    fn align_byte(&mut self)
        requires
            old(self).wf(),
        ensures
            final(self).wf(),
            final(self).data@ == old(self).data@,
            final(self).pos == old(self).pos,
            final(self).bitcnt == 0,
    {
        self.bitcnt = 0;
    }

    fn read_byte(&mut self) -> (r: Result<u8, InflateError>)
        requires
            old(self).wf(),
            old(self).bitcnt == 0,
        ensures
            final(self).wf(),
            final(self).data@ == old(self).data@,
            final(self).bitcnt == 0,
            old(self).pos < old(self).data@.len() ==> r == Ok::<u8, InflateError>(
                old(self).data@[old(self).pos as int],
            ) && final(self).pos == old(self).pos + 1,
            old(self).pos >= old(self).data@.len() ==> fails_with(r, "byte stream end"@)
                && final(self).pos == old(self).pos,
    {
        if self.pos >= self.data.len() {
            return Err(InflateError::Corrupt("byte stream end"));
        }
        let b: u8 = self.data[self.pos];
        self.pos = self.pos + 1;
        Ok(b)
    }
}


/// Node of a decoding tree: a leaf holds a symbol, an inner node its two
/// children (0 meaning none, as the root is never a child).
#[derive(Debug, Clone, Copy)]
struct HuffNode {
    leaf: bool,
    sym: u16,
    left: u16,
    right: u16,
}

/// Every child index points into the tree, which has a root.
spec fn tree_wf(nodes: Seq<HuffNode>) -> bool {
    &&& 1 <= nodes.len() <= 4801
    &&& forall|i: int|
        0 <= i < nodes.len() ==> (#[trigger] nodes[i]).left < nodes.len() && nodes[i].right
            < nodes.len()
}

spec fn lengths_ok(lengths: Seq<u16>) -> bool {
    &&& lengths.len() <= 320
    &&& forall|i: int| 0 <= i < lengths.len() ==> #[trigger] lengths[i] <= 15
}

/// Symbols already placed in the tree when symbol `s` of length `len` is next.
spec fn inserted_set(lengths: Seq<u16>, len: int, s: int) -> Set<int> {
    Set::new(
        |k: int|
            0 <= k < lengths.len() && ((1 <= lengths[k] < len) || (lengths[k] == len && k < s)),
    )
}

proof fn lemma_inserted_set(lengths: Seq<u16>, len: int, s: int)
    requires
        0 <= s < lengths.len(),
    ensures
        inserted_set(lengths, len, s).finite(),
        inserted_set(lengths, len, s).len() <= lengths.len(),
        lengths[s] == len && len >= 1 ==> !inserted_set(lengths, len, s).contains(s) && inserted_set(lengths, len, s + 1)
            == inserted_set(lengths, len, s).insert(s) && inserted_set(lengths, len, s).len() < lengths.len(),
        lengths[s] != len ==> inserted_set(lengths, len, s + 1) == inserted_set(lengths, len, s),
{
    let r = vstd::set_lib::set_int_range(0, lengths.len() as int);
    vstd::set_lib::lemma_int_range(0, lengths.len() as int);
    let a = inserted_set(lengths, len, s);
    assert(a.subset_of(r));
    vstd::set_lib::lemma_len_subset(a, r);
    if lengths[s] == len && len >= 1 {
        assert(inserted_set(lengths, len, s + 1) =~= a.insert(s));
        assert(a.insert(s).subset_of(r));
        vstd::set_lib::lemma_len_subset(a.insert(s), r);
    } else if lengths[s] != len {
        assert(inserted_set(lengths, len, s + 1) =~= a);
    }
}

/// Builds the decoding tree of the canonical Huffman code with the given
/// code lengths (RFC 1951 3.2.2): symbols ordered by (length, value) get
/// consecutive codes, and each code is walked into the tree from its most
/// significant bit.
fn build_tree(lengths: &[u16]) -> (r: Result<Vec<HuffNode>, InflateError>)
    requires
        lengths_ok(lengths@),
    ensures
        r matches Ok(nodes) ==> tree_wf(nodes@),
        (forall|i: int| 0 <= i < lengths@.len() ==> lengths@[i] == 0) ==> (r matches Ok(nodes)
            && nodes@.len() == 1 && nodes@[0].leaf && nodes@[0].sym == 0),
        r matches Err(e) ==> e is Corrupt,
{
    let n: usize = lengths.len();
    let mut max_bits: usize = 0;
    let mut i: usize = 0;
    while i < n
        invariant
            n == lengths@.len(),
            lengths_ok(lengths@),
            i <= n,
            max_bits <= 15,
            max_bits == 0 ==> forall|k: int| 0 <= k < i ==> lengths@[k] == 0,
            max_bits > 0 ==> exists|k: int| 0 <= k < i && lengths@[k] == max_bits,
            forall|k: int| 0 <= k < i ==> lengths@[k] <= max_bits,
        decreases n - i,
    {
        if lengths[i] as usize > max_bits {
            max_bits = lengths[i] as usize;
        }
        i = i + 1;
    }
    assert((forall|k: int| 0 <= k < n ==> lengths@[k] == 0) ==> max_bits == 0);
    if max_bits == 0 {
        let mut v: Vec<HuffNode> = Vec::new();
        v.push(HuffNode { leaf: true, sym: 0, left: 0, right: 0 });
        return Ok(v);
    }
    let mut bl_count: Vec<usize> = Vec::new();
    let mut k: usize = 0;
    while k <= max_bits
        invariant
            max_bits <= 15,
            k <= max_bits + 1,
            bl_count@.len() == k,
            forall|j: int| 0 <= j < k ==> bl_count@[j] == 0,
        decreases max_bits + 1 - k,
    {
        bl_count.push(0);
        k = k + 1;
    }
    i = 0;
    while i < n
        invariant
            n == lengths@.len(),
            lengths_ok(lengths@),
            max_bits <= 15,
            i <= n,
            bl_count@.len() == max_bits + 1,
            forall|j: int| 0 <= j <= max_bits ==> #[trigger] bl_count@[j] <= i,
        decreases n - i,
    {
        let l: usize = lengths[i] as usize;
        if l <= max_bits {
            let c: usize = bl_count[l];
            bl_count.set(l, c + 1);
        }
        i = i + 1;
    }
    let mut code: usize = 0;
    let mut p: usize = 1;
    proof {
        vstd::arithmetic::power2::lemma2_to64();
    }
    let mut next_code: Vec<usize> = Vec::new();
    next_code.push(0);
    let mut bits: usize = 1;
    while bits <= max_bits
        invariant
            1 <= max_bits <= 15,
            1 <= bits <= max_bits + 1,
            next_code@.len() == bits,
            bl_count@.len() == max_bits + 1,
            forall|j: int| 0 <= j <= max_bits ==> #[trigger] bl_count@[j] <= n,
            n <= 320,
            p == vstd::arithmetic::power2::pow2((bits - 1) as nat),
            p <= 0x8000,
            code + 640 <= 640 * p,
            forall|j: int| 0 <= j < bits ==> #[trigger] next_code@[j] <= 640 * 0x8000,
        decreases max_bits + 1 - bits,
    {
        proof {
            vstd::arithmetic::power2::lemma2_to64();
            vstd::arithmetic::power2::lemma_pow2_unfold(bits as nat);
            if bits < 15 {
                vstd::arithmetic::power2::lemma_pow2_strictly_increases(bits as nat, 15);
            }
        }
        code = (code + bl_count[bits - 1]) * 2;
        p = p * 2;
        next_code.push(code);
        bits = bits + 1;
    }
    let mut nodes: Vec<HuffNode> = Vec::new();
    nodes.push(HuffNode { leaf: false, sym: 0, left: 0, right: 0 });
    let mut inserted: usize = 0;
    let mut len: usize = 1;
    assert(inserted_set(lengths@, 1, 0) =~= Set::<int>::empty());
    while len <= max_bits
        invariant
            n == lengths@.len(),
            lengths_ok(lengths@),
            1 <= max_bits <= 15,
            1 <= len <= max_bits + 1,
            next_code@.len() == max_bits + 1,
            forall|j: int| 0 <= j <= max_bits ==> #[trigger] next_code@[j] <= 640 * 0x8000 + inserted,
            inserted == inserted_set(lengths@, len as int, 0).len(),
            exists|k: int| 0 <= k < lengths@.len() && lengths@[k] != 0,
            tree_wf(nodes@),
            nodes@.len() <= 1 + 15 * inserted,
        decreases max_bits + 1 - len,
    {
        let mut s: usize = 0;
        while s < n
            invariant
                n == lengths@.len(),
                lengths_ok(lengths@),
                1 <= max_bits <= 15,
                1 <= len <= max_bits,
                s <= n,
                next_code@.len() == max_bits + 1,
                forall|j: int| 0 <= j <= max_bits ==> #[trigger] next_code@[j] <= 640 * 0x8000 + inserted,
                inserted == inserted_set(lengths@, len as int, s as int).len(),
                exists|k: int| 0 <= k < lengths@.len() && lengths@[k] != 0,
                tree_wf(nodes@),
                nodes@.len() <= 1 + 15 * inserted,
            decreases n - s,
        {
            proof {
                lemma_inserted_set(lengths@, len as int, s as int);
            }
            if lengths[s] as usize == len {
                let c: usize = next_code[len];
                next_code.set(len, c + 1);
                let mut idx: usize = 0;
                let mut bit: usize = len;
                while bit > 0
                    invariant
                        tree_wf(nodes@),
                        idx < nodes@.len(),
                        bit <= len <= 15,
                        nodes@.len() <= 1 + 15 * inserted + (len - bit),
                        inserted < n,
                        n <= 320,
                        exists|k: int| 0 <= k < lengths@.len() && lengths@[k] != 0,
                    decreases bit,
                {
                    bit = bit - 1;
                    let b: usize = (c >> bit) & 1;
                    if nodes[idx].leaf {
                        return Err(InflateError::Corrupt("huffman overlap"));
                    }
                    let child: usize = if b == 0 {
                        nodes[idx].left as usize
                    } else {
                        nodes[idx].right as usize
                    };
                    if child == 0 {
                        let new_idx: usize = nodes.len();
                        nodes.push(HuffNode { leaf: false, sym: 0, left: 0, right: 0 });
                        let mut nd: HuffNode = nodes[idx];
                        if b == 0 {
                            nd.left = new_idx as u16;
                        } else {
                            nd.right = new_idx as u16;
                        }
                        nodes.set(idx, nd);
                        idx = new_idx;
                    } else {
                        idx = child;
                    }
                }
                if nodes[idx].leaf {
                    return Err(InflateError::Corrupt("duplicate huffman code"));
                }
                let mut nd: HuffNode = nodes[idx];
                nd.leaf = true;
                nd.sym = s as u16;
                nodes.set(idx, nd);
                inserted = inserted + 1;
            }
            s = s + 1;
        }
        proof {
            assert(inserted_set(lengths@, len as int, n as int) =~= inserted_set(lengths@, len + 1, 0));
        }
        len = len + 1;
    }
    Ok(nodes)
}


/// The symbol reached by walking tree `nodes` from node `idx`, taking
/// the bits of `data` from bit `p` (0 to the left, 1 to the right), and
/// the bit after the walk.
spec fn walk(nodes: Seq<HuffNode>, data: Seq<u8>, p: int, idx: int) -> Result<(u16, int), InflateError>
    decreases data.len() * 8 - p,
{
    if !(0 <= idx < nodes.len()) {
        Err(InflateError::Corrupt("huffman walk out of range"))
    } else if nodes[idx].leaf {
        Ok((nodes[idx].sym, p))
    } else if p < 0 || p >= data.len() * 8 {
        Err(InflateError::Corrupt("bitstream end"))
    } else {
        let nx = if bit_at(data, p) == 0 { nodes[idx].left } else { nodes[idx].right };
        walk(nodes, data, p + 1, nx as int)
    }
}

/// Decodes one symbol by walking the tree from the root, one bit per step.
fn decode_sym(bit: &mut BitReader, nodes: &Vec<HuffNode>) -> (r: Result<u16, InflateError>)
    requires
        old(bit).wf(),
        tree_wf(nodes@),
    ensures
        final(bit).wf(),
        final(bit).data@ == old(bit).data@,
        final(bit).bitpos() >= old(bit).bitpos(),
        final(bit).remaining() >= 0,
        nodes@[0].leaf ==> r == Ok::<u16, InflateError>(nodes@[0].sym) && final(bit).bitpos()
            == old(bit).bitpos(),
        match walk(nodes@, old(bit).data@, old(bit).bitpos(), 0) {
            Ok((s, q)) => r == Ok::<u16, InflateError>(s) && final(bit).bitpos() == q,
            Err(e) => same_error(r, Err::<(), InflateError>(e)),
        },
{
    let mut idx: usize = 0;
    loop
        invariant
            bit.wf(),
            bit.data@ == old(bit).data@,
            bit.bitpos() >= old(bit).bitpos(),
            bit.remaining() >= 0,
            tree_wf(nodes@),
            idx < nodes@.len(),
            idx == 0 ==> bit.bitpos() == old(bit).bitpos() || !nodes@[0].leaf,
            !nodes@[0].leaf || idx == 0 && bit.bitpos() == old(bit).bitpos(),
            walk(nodes@, bit.data@, bit.bitpos(), idx as int) == walk(nodes@, old(bit).data@, old(bit).bitpos(), 0),
        decreases bit.remaining(),
    {
        let node: HuffNode = nodes[idx];
        if node.leaf {
            return Ok(node.sym);
        }
        let b: u32 = match bit.read_bit() {
            Ok(b) => b,
            Err(e) => {
                return Err(e);
            },
        };
        idx = if b == 0 {
            node.left as usize
        } else {
            node.right as usize
        };
        if idx >= nodes.len() {
            return Err(InflateError::Corrupt("huffman walk out of range"));
        }
    }
}

/// Code lengths of the fixed literal/length code (RFC 1951 3.2.6).
fn fixed_lit_len_lengths() -> (r: Vec<u16>)
    ensures
        r@.len() == 288,
        forall|i: int| 0 <= i < 144 ==> r@[i] == 8,
        forall|i: int| 144 <= i < 256 ==> r@[i] == 9,
        forall|i: int| 256 <= i < 280 ==> r@[i] == 7,
        forall|i: int| 280 <= i < 288 ==> r@[i] == 8,
{
    let mut l: Vec<u16> = Vec::new();
    let mut i: usize = 0;
    while i < 288
        invariant
            i <= 288,
            l@.len() == i,
            forall|k: int| 0 <= k < i && k < 144 ==> l@[k] == 8,
            forall|k: int| 144 <= k < i && k < 256 ==> l@[k] == 9,
            forall|k: int| 256 <= k < i && k < 280 ==> l@[k] == 7,
            forall|k: int| 280 <= k < i ==> l@[k] == 8,
        decreases 288 - i,
    {
        let v: u16 = if i < 144 {
            8
        } else if i < 256 {
            9
        } else if i < 280 {
            7
        } else {
            8
        };
        l.push(v);
        i = i + 1;
    }
    l
}

/// Code lengths of the fixed distance code: thirty codes of 5 bits.
fn fixed_dist_lengths() -> (r: Vec<u16>)
    ensures
        r@.len() == 30,
        forall|i: int| 0 <= i < 30 ==> r@[i] == 5,
{
    let mut l: Vec<u16> = Vec::new();
    let mut i: usize = 0;
    while i < 30
        invariant
            i <= 30,
            l@.len() == i,
            forall|k: int| 0 <= k < i ==> l@[k] == 5,
        decreases 30 - i,
    {
        l.push(5);
        i = i + 1;
    }
    l
}

/// Order in which code-length code lengths are stored.
pub open spec fn clen_order_spec(i: int) -> int {
    if i == 0 { 16 } else if i == 1 { 17 } else if i == 2 { 18 } else if i == 3 { 0 }
    else if i == 4 { 8 } else if i == 5 { 7 } else if i == 6 { 9 } else if i == 7 { 6 }
    else if i == 8 { 10 } else if i == 9 { 5 } else if i == 10 { 11 } else if i == 11 { 4 }
    else if i == 12 { 12 } else if i == 13 { 3 } else if i == 14 { 13 } else if i == 15 { 2 }
    else if i == 16 { 14 } else if i == 17 { 1 } else { 15 }
}

fn clen_order(i: usize) -> (r: usize)
    requires
        i < 19,
    ensures
        r == clen_order_spec(i as int),
        r < 19,
{
    if i == 0 { 16 } else if i == 1 { 17 } else if i == 2 { 18 } else if i == 3 { 0 }
    else if i == 4 { 8 } else if i == 5 { 7 } else if i == 6 { 9 } else if i == 7 { 6 }
    else if i == 8 { 10 } else if i == 9 { 5 } else if i == 10 { 11 } else if i == 11 { 4 }
    else if i == 12 { 12 } else if i == 13 { 3 } else if i == 14 { 13 } else if i == 15 { 2 }
    else if i == 16 { 14 } else if i == 17 { 1 } else { 15 }
}

/// Base length and extra bits of length symbols 257..=285 (RFC 1951 3.2.5).
pub open spec fn length_code(sym: int) -> Option<(int, int)> {
    if sym < 257 || sym > 285 { None }
    else if sym <= 264 { Some((sym - 254, 0)) }
    else if sym <= 268 { Some((11 + (sym - 265) * 2, 1)) }
    else if sym <= 272 { Some((19 + (sym - 269) * 4, 2)) }
    else if sym <= 276 { Some((35 + (sym - 273) * 8, 3)) }
    else if sym <= 280 { Some((67 + (sym - 277) * 16, 4)) }
    else if sym <= 284 { Some((131 + (sym - 281) * 32, 5)) }
    else { Some((258, 0)) }
}

/// Base distance and extra bits of distance symbols 0..=29 (RFC 1951 3.2.5).
pub open spec fn dist_code(d: int) -> Option<(int, int)> {
    if d == 0 {
        Some((1, 0))
    } else if d == 1 {
        Some((2, 0))
    } else if d == 2 {
        Some((3, 0))
    } else if d == 3 {
        Some((4, 0))
    } else if d == 4 {
        Some((5, 1))
    } else if d == 5 {
        Some((7, 1))
    } else if d == 6 {
        Some((9, 2))
    } else if d == 7 {
        Some((13, 2))
    } else if d == 8 {
        Some((17, 3))
    } else if d == 9 {
        Some((25, 3))
    } else if d == 10 {
        Some((33, 4))
    } else if d == 11 {
        Some((49, 4))
    } else if d == 12 {
        Some((65, 5))
    } else if d == 13 {
        Some((97, 5))
    } else if d == 14 {
        Some((129, 6))
    } else if d == 15 {
        Some((193, 6))
    } else if d == 16 {
        Some((257, 7))
    } else if d == 17 {
        Some((385, 7))
    } else if d == 18 {
        Some((513, 8))
    } else if d == 19 {
        Some((769, 8))
    } else if d == 20 {
        Some((1025, 9))
    } else if d == 21 {
        Some((1537, 9))
    } else if d == 22 {
        Some((2049, 10))
    } else if d == 23 {
        Some((3073, 10))
    } else if d == 24 {
        Some((4097, 11))
    } else if d == 25 {
        Some((6145, 11))
    } else if d == 26 {
        Some((8193, 12))
    } else if d == 27 {
        Some((12289, 12))
    } else if d == 28 {
        Some((16385, 13))
    } else if d == 29 {
        Some((24577, 13))
    } else {
        None
    }
}

/// The distance codes of RFC 1951 3.2.5: codes 0..=29 only; code 0 stands
/// for distance 1; codes 0..=3 carry no extra bits and code `d` from 4 on
/// carries `d / 2 - 1`; and each code's range ends where the next one
/// starts, so the codes cover the distances 1..=32768 without gap or
/// overlap.
pub proof fn lemma_dist_codes_cover()
    ensures
        forall|d: int| #[trigger] dist_code(d) is Some <==> 0 <= d <= 29,
        dist_code(0) == Some((1int, 0int)),
        forall|d: int| 0 <= d < 4 ==> (#[trigger] dist_code(d)).unwrap().1 == 0,
        forall|d: int| 4 <= d <= 29 ==> (#[trigger] dist_code(d)).unwrap().1 == d / 2 - 1,
        forall|d: int|
            0 <= d < 29 ==> (#[trigger] dist_code(d + 1)).unwrap().0 == dist_code(d).unwrap().0
                + vstd::arithmetic::power2::pow2(dist_code(d).unwrap().1 as nat),
        dist_code(29).unwrap().0 + vstd::arithmetic::power2::pow2(dist_code(29).unwrap().1 as nat) == 32769,
{
    vstd::arithmetic::power2::lemma2_to64();
}

/// The length codes of RFC 1951 3.2.5: symbols 257..=285 only; symbol 257
/// stands for length 3; symbols up to 264 carry no extra bits and symbol
/// `s` from 265 to 284 carries `(s - 261) / 4`; each symbol's range ends
/// where the next one starts up to 284, and 285 alone is length 258.
pub proof fn lemma_length_codes_cover()
    ensures
        forall|s: int| #[trigger] length_code(s) is Some <==> 257 <= s <= 285,
        length_code(257) == Some((3int, 0int)),
        forall|s: int| 257 <= s <= 264 ==> (#[trigger] length_code(s)).unwrap().1 == 0,
        forall|s: int| 265 <= s <= 284 ==> (#[trigger] length_code(s)).unwrap().1 == (s - 261) / 4,
        forall|s: int|
            257 <= s < 284 ==> (#[trigger] length_code(s + 1)).unwrap().0 == length_code(s).unwrap().0
                + vstd::arithmetic::power2::pow2(length_code(s).unwrap().1 as nat),
        length_code(284).unwrap().0 + vstd::arithmetic::power2::pow2(length_code(284).unwrap().1 as nat) == 259,
        length_code(285) == Some((258int, 0int)),
{
    vstd::arithmetic::power2::lemma2_to64();
}

/// The code-length code lengths come in an order that names each of the
/// 19 code-length symbols exactly once, starting 16, 17, 18, 0.
pub proof fn lemma_clen_order_permutes()
    ensures
        forall|i: int| 0 <= i < 19 ==> 0 <= #[trigger] clen_order_spec(i) < 19,
        forall|i: int, j: int| 0 <= i < j < 19 ==> #[trigger] clen_order_spec(i) != #[trigger] clen_order_spec(j),
        clen_order_spec(0) == 16 && clen_order_spec(1) == 17 && clen_order_spec(2) == 18 && clen_order_spec(3) == 0,
{
}

fn length_table(sym: usize) -> (r: Option<(usize, u32)>)
    ensures
        match length_code(sym as int) {
            None => r is None,
            Some((b, e)) => r == Some((b as usize, e as u32)),
        },
        r matches Some((b, e)) ==> 3 <= b <= 258 && e <= 5,
{
    if sym < 257 || sym > 285 { None }
    else if sym <= 264 { Some((sym - 254, 0)) }
    else if sym <= 268 { Some((11 + (sym - 265) * 2, 1)) }
    else if sym <= 272 { Some((19 + (sym - 269) * 4, 2)) }
    else if sym <= 276 { Some((35 + (sym - 273) * 8, 3)) }
    else if sym <= 280 { Some((67 + (sym - 277) * 16, 4)) }
    else if sym <= 284 { Some((131 + (sym - 281) * 32, 5)) }
    else { Some((258, 0)) }
}

fn dist_table(d: usize) -> (r: Option<(usize, u32)>)
    ensures
        match dist_code(d as int) {
            None => r is None,
            Some((b, e)) => r == Some((b as usize, e as u32)),
        },
        r matches Some((b, e)) ==> 1 <= b <= 24577 && e <= 13,
{
    if d == 0 {
        Some((1, 0))
    } else if d == 1 {
        Some((2, 0))
    } else if d == 2 {
        Some((3, 0))
    } else if d == 3 {
        Some((4, 0))
    } else if d == 4 {
        Some((5, 1))
    } else if d == 5 {
        Some((7, 1))
    } else if d == 6 {
        Some((9, 2))
    } else if d == 7 {
        Some((13, 2))
    } else if d == 8 {
        Some((17, 3))
    } else if d == 9 {
        Some((25, 3))
    } else if d == 10 {
        Some((33, 4))
    } else if d == 11 {
        Some((49, 4))
    } else if d == 12 {
        Some((65, 5))
    } else if d == 13 {
        Some((97, 5))
    } else if d == 14 {
        Some((129, 6))
    } else if d == 15 {
        Some((193, 6))
    } else if d == 16 {
        Some((257, 7))
    } else if d == 17 {
        Some((385, 7))
    } else if d == 18 {
        Some((513, 8))
    } else if d == 19 {
        Some((769, 8))
    } else if d == 20 {
        Some((1025, 9))
    } else if d == 21 {
        Some((1537, 9))
    } else if d == 22 {
        Some((2049, 10))
    } else if d == 23 {
        Some((3073, 10))
    } else if d == 24 {
        Some((4097, 11))
    } else if d == 25 {
        Some((6145, 11))
    } else if d == 26 {
        Some((8193, 12))
    } else if d == 27 {
        Some((12289, 12))
    } else if d == 28 {
        Some((16385, 13))
    } else if d == 29 {
        Some((24577, 13))
    } else {
        None
    }
}


/// `o` starts with `p`.
pub open spec fn extends(p: Seq<u8>, o: Seq<u8>) -> bool {
    p.len() <= o.len() && forall|k: int| 0 <= k < p.len() ==> o[k] == p[k]
}

/// Outcome of a stored block whose 16-bit length field starts at byte `q`,
/// appended to `out` without exceeding `max_out` bytes.
pub open spec fn stored_outcome(data: Seq<u8>, q: int, out: Seq<u8>, max_out: int) -> Result<
    Seq<u8>,
    InflateError,
> {
    let len = crate::bytes::le16(data, q);
    let avail = data.len() - (q + 4);
    let room = max_out - out.len();
    if len <= avail && len <= room {
        Ok(out + data.subrange(q + 4, q + 4 + len))
    } else if avail < len && avail <= room {
        Err(InflateError::Corrupt("byte stream end"))
    } else {
        Err(InflateError::OutputTooLarge { limit: max_out as usize })
    }
}

pub open spec fn same_error<T, U>(r: Result<T, InflateError>, e: Result<U, InflateError>) -> bool {
    match (r, e) {
        (Err(InflateError::Corrupt(a)), Err(InflateError::Corrupt(b))) => a@ == b@,
        (Err(InflateError::OutputTooLarge { limit: a }), Err(InflateError::OutputTooLarge { limit: b })) => a == b,
        _ => false,
    }
}

/// Decodes one block after its final-block bit and appends its bytes to `out`.
fn decode_block(bit: &mut BitReader, out: &mut Vec<u8>, max_out: usize) -> (r: Result<(), InflateError>)
    requires
        old(bit).wf(),
        old(out)@.len() <= max_out,
    ensures
        final(bit).wf(),
        final(bit).data@ == old(bit).data@,
        final(bit).remaining() >= 0,
        final(bit).bitpos() >= old(bit).bitpos(),
        r is Ok ==> final(bit).bitpos() >= old(bit).bitpos() + 2,
        final(out)@.len() <= max_out,
        extends(old(out)@, final(out)@),
        ({
            let d = old(bit).data@;
            let p0 = old(bit).bitpos();
            let q = (p0 + 9) / 8;
            old(bit).remaining() >= 2 && bits_value(d, p0, 2) == 0 && q + 4 <= d.len() ==> match stored_outcome(
                d,
                q,
                old(out)@,
                max_out as int,
            ) {
                Ok(o) => r is Ok && final(out)@ == o && final(bit).bitpos() == (q + 4 + crate::bytes::le16(d, q)) * 8,
                Err(e) => same_error(r, Err::<(), InflateError>(e)),
            }
        }),
{
    let ghost p0 = bit.bitpos();
    let ghost out0 = out@;
    proof {
        vstd::arithmetic::power2::lemma2_to64();
    }
    let btype: u32 = match bit.read_bits(2) {
        Ok(v) => v,
        Err(e) => {
            return Err(e);
        },
    };
    if btype == 0 {
        let ghost pos1: int = bit.pos as int;
        let ghost cnt1: int = bit.bitcnt as int;
        proof {
            assert(pos1 == (p0 + 9) / 8) by (nonlinear_arith)
                requires
                    p0 + 2 == pos1 * 8 - cnt1,
                    0 <= cnt1 < 8,
            ;
        }
        bit.align_byte();
        let b0: u8 = match bit.read_byte() {
            Ok(b) => b,
            Err(e) => {
                return Err(e);
            },
        };
        let b1: u8 = match bit.read_byte() {
            Ok(b) => b,
            Err(e) => {
                return Err(e);
            },
        };
        let len: usize = (b0 as usize) + (b1 as usize) * 256;
        let _n0: u8 = match bit.read_byte() {
            Ok(b) => b,
            Err(e) => {
                return Err(e);
            },
        };
        let _n1: u8 = match bit.read_byte() {
            Ok(b) => b,
            Err(e) => {
                return Err(e);
            },
        };
        let ghost q = (p0 + 9) / 8;
        assert(p0 >= 0);
        assert(len == crate::bytes::le16(bit.data@, q));
        assert((q + 4) * 8 >= p0 + 2) by (nonlinear_arith)
            requires
                q == (p0 + 9) / 8,
                p0 >= 0,
        ;
        let mut j: usize = 0;
        while j < len
            invariant
                bit.wf(),
                bit.data@ == old(bit).data@,
                bit.bitcnt == 0,
                bit.pos == q + 4 + j,
                j <= len,
                len == crate::bytes::le16(bit.data@, q),
                out@ == out0 + bit.data@.subrange(q + 4, q + 4 + j),
                out0 == old(out)@,
                out@.len() == out0.len() + j,
                out@.len() <= max_out,
                q + 4 <= bit.data@.len(),
                q == (p0 + 9) / 8,
                0 <= q,
                p0 == old(bit).bitpos(),
                (q + 4) * 8 >= p0 + 2,
            decreases len - j,
        {
            let b: u8 = match bit.read_byte() {
                Ok(b) => b,
                Err(e) => {
                    return Err(e);
                },
            };
            if out.len() >= max_out {
                return Err(InflateError::OutputTooLarge { limit: max_out });
            }
            assert(b == bit.data@[q + 4 + j]);
            assert(q + 4 + j + 1 <= bit.data@.len());
            out.push(b);
            assert(bit.data@.subrange(q + 4, q + 4 + j + 1) =~= bit.data@.subrange(q + 4, q + 4 + j).push(b));
            j = j + 1;
            assert(out@ =~= out0 + bit.data@.subrange(q + 4, q + 4 + j));
        }
        return Ok(());
    }
    assert(bits_value(old(bit).data@, p0, 2) != 0);
    if btype != 1 && btype != 2 {
        return Err(InflateError::Corrupt("reserved block type"));
    }
    let lit_len: Vec<u16>;
    let dist: Vec<u16>;
    if btype == 1 {
        lit_len = fixed_lit_len_lengths();
        dist = fixed_dist_lengths();
    } else {
        let hlit: usize = match bit.read_bits(5) {
            Ok(v) => v as usize + 257,
            Err(e) => {
                return Err(e);
            },
        };
        let hdist: usize = match bit.read_bits(5) {
            Ok(v) => v as usize + 1,
            Err(e) => {
                return Err(e);
            },
        };
        let hclen: usize = match bit.read_bits(4) {
            Ok(v) => v as usize + 4,
            Err(e) => {
                return Err(e);
            },
        };
        proof {
            vstd::arithmetic::power2::lemma2_to64();
        }
        let mut clen_lengths: Vec<u16> = Vec::new();
        let mut i: usize = 0;
        while i < 19
            invariant
                i <= 19,
                clen_lengths@.len() == i,
                forall|k: int| 0 <= k < i ==> clen_lengths@[k] == 0,
            decreases 19 - i,
        {
            clen_lengths.push(0);
            i = i + 1;
        }
        i = 0;
        while i < hclen
            invariant
                bit.wf(),
                bit.data@ == old(bit).data@,
                bit.bitpos() >= p0 + 2,
                bit.remaining() >= 0,
                out@ == out0,
                out0 == old(out)@,
                out0.len() <= max_out,
                p0 == old(bit).bitpos(),
                bits_value(old(bit).data@, p0, 2) != 0,
                hclen <= 19,
                i <= hclen,
                clen_lengths@.len() == 19,
                forall|k: int| 0 <= k < 19 ==> #[trigger] clen_lengths@[k] <= 7,
            decreases hclen - i,
        {
            proof {
                vstd::arithmetic::power2::lemma2_to64();
            }
            let v: u32 = match bit.read_bits(3) {
                Ok(v) => v,
                Err(e) => {
                    return Err(e);
                },
            };
            clen_lengths.set(clen_order(i), v as u16);
            i = i + 1;
        }
        let cl_tree: Vec<HuffNode> = match build_tree(clen_lengths.as_slice()) {
            Ok(t) => t,
            Err(e) => {
                return Err(e);
            },
        };
        let total: usize = hlit + hdist;
        let mut lengths: Vec<u16> = Vec::new();
        while lengths.len() < total
            invariant
                bit.wf(),
                bit.data@ == old(bit).data@,
                bit.bitpos() >= p0 + 2,
                bit.remaining() >= 0,
                out@ == out0,
                out0 == old(out)@,
                out0.len() <= max_out,
                p0 == old(bit).bitpos(),
                bits_value(old(bit).data@, p0, 2) != 0,
                tree_wf(cl_tree@),
                total <= 320,
                lengths@.len() <= total,
                forall|k: int| 0 <= k < lengths@.len() ==> #[trigger] lengths@[k] <= 15,
            decreases total - lengths@.len(),
        {
            let ghost before = lengths@.len();
            proof {
                vstd::arithmetic::power2::lemma2_to64();
            }
            let sym: usize = match decode_sym(bit, &cl_tree) {
                Ok(v) => v as usize,
                Err(e) => {
                    return Err(e);
                },
            };
            if sym <= 15 {
                lengths.push(sym as u16);
            } else if sym == 16 {
                if lengths.len() == 0 {
                    return Err(InflateError::Corrupt("no prev"));
                }
                let prev: u16 = lengths[lengths.len() - 1];
                let rep: usize = match bit.read_bits(2) {
                    Ok(v) => v as usize + 3,
                    Err(e) => {
                        return Err(e);
                    },
                };
                push_repeated(&mut lengths, prev, rep);
            } else if sym == 17 {
                let rep: usize = match bit.read_bits(3) {
                    Ok(v) => v as usize + 3,
                    Err(e) => {
                        return Err(e);
                    },
                };
                push_repeated(&mut lengths, 0, rep);
            } else if sym == 18 {
                let rep: usize = match bit.read_bits(7) {
                    Ok(v) => v as usize + 11,
                    Err(e) => {
                        return Err(e);
                    },
                };
                push_repeated(&mut lengths, 0, rep);
            } else {
                return Err(InflateError::Corrupt("bad clen sym"));
            }
            if lengths.len() > total {
                return Err(InflateError::Corrupt("too many lengths"));
            }
        }
        lit_len = copy_u16(lengths.as_slice(), 0, hlit);
        dist = copy_u16(lengths.as_slice(), hlit, total);
    }
    let lit_tree: Vec<HuffNode> = match build_tree(lit_len.as_slice()) {
        Ok(t) => t,
        Err(e) => {
            return Err(e);
        },
    };
    let dist_tree: Vec<HuffNode> = match build_tree(dist.as_slice()) {
        Ok(t) => t,
        Err(e) => {
            return Err(e);
        },
    };
    decode_symbols(bit, out, max_out, &lit_tree, &dist_tree)
}

/// Decodes the symbols of a compressed block with the literal and length
/// tree `lit_tree` and the distance tree `dist_tree`, up to the
/// end-of-block symbol: literals are appended to `out`, each length and
/// distance pair copies bytes from that far back in `out`.
#[verifier::spinoff_prover]
#[verifier::rlimit(80)]
fn decode_symbols(bit: &mut BitReader, out: &mut Vec<u8>, max_out: usize, lit_tree: &Vec<HuffNode>, dist_tree: &Vec<HuffNode>) -> (r: Result<(), InflateError>)
    requires
        old(bit).wf(),
        old(out)@.len() <= max_out,
        tree_wf(lit_tree@),
        tree_wf(dist_tree@),
    ensures
        final(bit).wf(),
        final(bit).data@ == old(bit).data@,
        final(bit).remaining() >= 0,
        final(bit).bitpos() >= old(bit).bitpos(),
        final(out)@.len() <= max_out,
        extends(old(out)@, final(out)@),
        match huff_run(old(bit).data@, old(bit).bitpos(), lit_tree@, dist_tree@, old(out)@, max_out as int) {
            Ok((o, q)) => r is Ok && final(out)@ == o && final(bit).bitpos() == q,
            Err(e) => same_error(r, Err::<(), InflateError>(e)),
        },
{
    let ghost d = bit.data@;
    let ghost total = huff_run(bit.data@, bit.bitpos(), lit_tree@, dist_tree@, out@, max_out as int);
    loop
        invariant
            bit.wf(),
            bit.data@ == d,
            d == old(bit).data@,
            bit.bitpos() >= old(bit).bitpos(),
            bit.remaining() >= 0,
            tree_wf(lit_tree@),
            tree_wf(dist_tree@),
            out@.len() <= max_out,
            extends(old(out)@, out@),
            total == huff_run(old(bit).data@, old(bit).bitpos(), lit_tree@, dist_tree@, old(out)@, max_out as int),
            huff_run(d, bit.bitpos(), lit_tree@, dist_tree@, out@, max_out as int) == total,
        decreases max_out - out@.len(),
    {
        let ghost pb = bit.bitpos();
        let ghost ob = out@;
        proof {
            vstd::arithmetic::power2::lemma2_to64();
        }
        let sym: usize = match decode_sym(bit, lit_tree) {
            Ok(v) => v as usize,
            Err(e) => {
                return Err(e);
            },
        };
        let ghost p1 = bit.bitpos();
        if sym < 256 {
            if out.len() >= max_out {
                return Err(InflateError::OutputTooLarge { limit: max_out });
            }
            out.push(sym as u8);
            assert(huff_step(d, pb, lit_tree@, dist_tree@, ob, max_out as int) == Ok::<(Seq<u8>, int, bool), InflateError>((out@, p1, false)));
        } else if sym == 256 {
            return Ok(());
        } else {
            let (len_base, len_extra) = match length_table(sym) {
                Some(x) => x,
                None => {
                    return Err(InflateError::Corrupt("bad len sym"));
                },
            };
            let mut length: usize = len_base;
            if len_extra > 0 {
                match bit.read_bits(len_extra) {
                    Ok(v) => {
                        proof {
                            vstd::arithmetic::power2::lemma2_to64();
                            lemma_bits_value_bound(d, p1, len_extra as nat);
                        }
                        length = length + v as usize;
                    },
                    Err(e) => {
                        return Err(e);
                    },
                }
            }
            let ghost lx: int = length - len_base;
            assert(extra_bits(d, p1, len_extra as int) == Ok::<int, InflateError>(lx));
            let ghost p2 = bit.bitpos();
            let dsym: usize = match decode_sym(bit, dist_tree) {
                Ok(v) => v as usize,
                Err(e) => {
                    return Err(e);
                },
            };
            let ghost p3 = bit.bitpos();
            let (d_base, d_extra) = match dist_table(dsym) {
                Some(x) => x,
                None => {
                    return Err(InflateError::Corrupt("bad dist sym"));
                },
            };
            let mut dist_v: usize = d_base;
            if d_extra > 0 {
                match bit.read_bits(d_extra) {
                    Ok(v) => {
                        proof {
                            vstd::arithmetic::power2::lemma2_to64();
                            lemma_bits_value_bound(d, p3, d_extra as nat);
                        }
                        dist_v = dist_v + v as usize;
                    },
                    Err(e) => {
                        return Err(e);
                    },
                }
            }
            let ghost dx: int = dist_v - d_base;
            assert(extra_bits(d, p3, d_extra as int) == Ok::<int, InflateError>(dx));
            if dist_v > out.len() {
                return Err(InflateError::Corrupt("dist too far"));
            }
            let start_len: usize = out.len();
            let mut j: usize = 0;
            #[verifier::loop_isolation(false)]
            while j < length
                invariant
                    1 <= dist_v <= start_len,
                    start_len == ob.len(),
                    out@.len() == start_len + j,
                    j <= length,
                    out@.len() <= max_out,
                    extends(old(out)@, out@),
                    out@ == lz_copy(ob, dist_v as int, j as nat),
                decreases length - j,
            {
                if out.len() >= max_out {
                    return Err(InflateError::OutputTooLarge { limit: max_out });
                }
                let idx: usize = out.len() - dist_v;
                let b: u8 = out[idx];
                out.push(b);
                j = j + 1;
            }
            proof {
                lemma_lz_copy_len(ob, dist_v as int, length as nat);
            }
            assert(huff_step(d, pb, lit_tree@, dist_tree@, ob, max_out as int) == Ok::<(Seq<u8>, int, bool), InflateError>((out@, bit.bitpos(), false)));
        }
    }
}

/// `n` bits hold a value below 2^n.
proof fn lemma_bits_value_bound(data: Seq<u8>, p: int, n: nat)
    ensures
        bits_value(data, p, n) < vstd::arithmetic::power2::pow2(n),
    decreases n,
{
    if n == 0 {
        vstd::arithmetic::power2::lemma2_to64();
    } else {
        lemma_bits_value_bound(data, p, (n - 1) as nat);
        lemma_bit_at_small(data, p + n - 1);
        vstd::arithmetic::power2::lemma_pow2_unfold(n);
        let b = bit_at(data, p + n - 1) as nat;
        let q = vstd::arithmetic::power2::pow2((n - 1) as nat);
        assert(b * q <= q) by (nonlinear_arith)
            requires
                b <= 1,
        ;
    }
}

/// `out` followed by `n` bytes each copied from `dist` bytes back, a copy
/// that may read bytes it has itself written.
spec fn lz_copy(out: Seq<u8>, dist: int, n: nat) -> Seq<u8>
    decreases n,
{
    if n == 0 {
        out
    } else {
        let o = lz_copy(out, dist, (n - 1) as nat);
        o.push(o[o.len() - dist])
    }
}

proof fn lemma_lz_copy_len(out: Seq<u8>, dist: int, n: nat)
    ensures
        lz_copy(out, dist, n).len() == out.len() + n,
    decreases n,
{
    if n > 0 {
        lemma_lz_copy_len(out, dist, (n - 1) as nat);
    }
}

/// The `n` extra bits from bit `p`, or the end-of-stream error.
spec fn extra_bits(data: Seq<u8>, p: int, n: int) -> Result<int, InflateError> {
    if n > 0 && data.len() * 8 - p < n {
        Err(InflateError::Corrupt("bitstream end"))
    } else if n > 0 {
        Ok(bits_value(data, p, n as nat) as int)
    } else {
        Ok(0)
    }
}

/// One symbol of a compressed block from bit `p`, decoded with the literal
/// and length tree `lt` and the distance tree `dt`, applied to `out`:
/// the new output, the next bit and whether it was the end of the block.
spec fn huff_step(data: Seq<u8>, p: int, lt: Seq<HuffNode>, dt: Seq<HuffNode>, out: Seq<u8>, max_out: int) -> Result<(Seq<u8>, int, bool), InflateError> {
    match walk(lt, data, p, 0) {
        Err(e) => Err(e),
        Ok((s, p1)) => if s < 256 {
            if out.len() >= max_out {
                Err(InflateError::OutputTooLarge { limit: max_out as usize })
            } else {
                Ok((out.push(s as u8), p1, false))
            }
        } else if s == 256 {
            Ok((out, p1, true))
        } else {
            match length_code(s as int) {
                None => Err(InflateError::Corrupt("bad len sym")),
                Some((lb, le)) => match extra_bits(data, p1, le) {
                    Err(e) => Err(e),
                    Ok(lx) => match walk(dt, data, p1 + le, 0) {
                        Err(e) => Err(e),
                        Ok((ds, p3)) => match dist_code(ds as int) {
                            None => Err(InflateError::Corrupt("bad dist sym")),
                            Some((db, de)) => match extra_bits(data, p3, de) {
                                Err(e) => Err(e),
                                Ok(dx) => if db + dx > out.len() {
                                    Err(InflateError::Corrupt("dist too far"))
                                } else if out.len() + lb + lx > max_out {
                                    Err(InflateError::OutputTooLarge { limit: max_out as usize })
                                } else {
                                    Ok((lz_copy(out, db + dx, (lb + lx) as nat), p3 + de, false))
                                },
                            },
                        },
                    },
                },
            }
        },
    }
}

/// The symbols of a compressed block from bit `p` up to its end-of-block
/// symbol, applied to `out`: the output and the bit after the block.
spec fn huff_run(data: Seq<u8>, p: int, lt: Seq<HuffNode>, dt: Seq<HuffNode>, out: Seq<u8>, max_out: int) -> Result<(Seq<u8>, int), InflateError>
    decreases max_out - out.len(),
{
    match huff_step(data, p, lt, dt, out, max_out) {
        Err(e) => Err(e),
        Ok((o, q, done)) => if done {
            Ok((o, q))
        } else if out.len() < o.len() <= max_out {
            huff_run(data, q, lt, dt, o, max_out)
        } else {
            Err(InflateError::Corrupt("no progress"))
        },
    }
}

fn push_repeated(v: &mut Vec<u16>, x: u16, rep: usize)
    requires
        x <= 15,
        forall|k: int| 0 <= k < old(v)@.len() ==> #[trigger] old(v)@[k] <= 15,
        old(v)@.len() + rep <= 1000,
    ensures
        final(v)@.len() == old(v)@.len() + rep,
        forall|k: int| 0 <= k < final(v)@.len() ==> #[trigger] final(v)@[k] <= 15,
{
    let mut i: usize = 0;
    while i < rep
        invariant
            i <= rep,
            x <= 15,
            v@.len() == old(v)@.len() + i,
            forall|k: int| 0 <= k < v@.len() ==> #[trigger] v@[k] <= 15,
        decreases rep - i,
    {
        v.push(x);
        i = i + 1;
    }
}

fn copy_u16(src: &[u16], lo: usize, hi: usize) -> (r: Vec<u16>)
    requires
        lo <= hi <= src@.len(),
    ensures
        r@ == src@.subrange(lo as int, hi as int),
{
    let mut r: Vec<u16> = Vec::new();
    let mut i: usize = lo;
    while i < hi
        invariant
            lo <= i <= hi <= src@.len(),
            r@ == src@.subrange(lo as int, i as int),
        decreases hi - i,
    {
        r.push(src[i]);
        i = i + 1;
        assert(r@ =~= src@.subrange(lo as int, i as int));
    }
    r
}


/// A stored block starts at byte `start`: its block-type bits (after the
/// last-block bit) are 00 and its bytes lie inside `data`.
pub open spec fn stored_at(data: Seq<u8>, start: int) -> bool {
    &&& 0 <= start
    &&& start + 5 <= data.len()
    &&& bits_value(data, start * 8 + 1, 2) == 0
    &&& start + 5 + stored_len(data, start) <= data.len()
}

/// Length field of the stored block at `start`.
pub open spec fn stored_len(data: Seq<u8>, start: int) -> int {
    crate::bytes::le16(data, start + 1)
}

/// Bytes of the stored block at `start`.
pub open spec fn stored_payload(data: Seq<u8>, start: int) -> Seq<u8> {
    data.subrange(start + 5, start + 5 + stored_len(data, start))
}

/// The bytes a run of stored blocks from byte `start` up to and including
/// a last block decodes to; `None` when the stream there is not such a run.
pub open spec fn stored_run(data: Seq<u8>, start: int) -> Option<Seq<u8>>
    decreases data.len() - start,
{
    if !stored_at(data, start) {
        None
    } else if bit_at(data, start * 8) == 1 {
        Some(stored_payload(data, start))
    } else {
        match stored_run(data, start + 5 + stored_len(data, start)) {
            Some(rest) => Some(stored_payload(data, start) + rest),
            None => None,
        }
    }
}

/// What a stream of stored blocks at `start` inflates to within `max_out`.
pub open spec fn stored_run_result(r: Result<Vec<u8>, InflateError>, data: Seq<u8>, start: int, max_out: usize) -> bool {
    stored_run(data, start) matches Some(p) ==> if p.len() <= max_out {
        r matches Ok(v) && v@ == p
    } else {
        r matches Err(InflateError::OutputTooLarge { limit }) && limit == max_out
    }
}

proof fn lemma_stored_run_len(data: Seq<u8>, start: int)
    requires
        stored_run(data, start) is Some,
    ensures
        stored_run(data, start).unwrap().len() >= stored_len(data, start),
        stored_run(data, start).unwrap().subrange(0, stored_len(data, start)) == stored_payload(data, start),
{
    let p = stored_run(data, start).unwrap();
    if bit_at(data, start * 8) != 1 {
        let rest = stored_run(data, start + 5 + stored_len(data, start)).unwrap();
        assert(p == stored_payload(data, start) + rest);
        assert(p.subrange(0, stored_len(data, start)) =~= stored_payload(data, start));
    } else {
        assert(p.subrange(0, stored_len(data, start)) =~= stored_payload(data, start));
    }
}

fn inflate_from(data: &[u8], start: usize, max_out: usize) -> (r: Result<Vec<u8>, InflateError>)
    requires
        start <= data@.len(),
    ensures
        r matches Ok(v) ==> v@.len() <= max_out,
        start == data@.len() ==> fails_with(r, "bitstream end"@),
        stored_run_result(r, data@, start as int, max_out),
{
    let mut bit = BitReader::new(data, start);
    let mut out: Vec<u8> = Vec::new();
    let ghost good: bool = stored_run(data@, start as int) is Some;
    let ghost whole: Seq<u8> = stored_run(data@, start as int).unwrap_or(Seq::empty());
    let ghost mut cur: int = start as int;
    proof {
        assert(whole =~= out@ + whole);
    }
    loop
        invariant_except_break
            good ==> bit.bitpos() == cur * 8 && stored_run(data@, cur) is Some && whole == out@ + stored_run(data@, cur).unwrap(),
        invariant
            bit.wf(),
            bit.data@ == data@,
            bit.remaining() >= 0,
            out@.len() <= max_out,
            start <= data@.len(),
            start == data@.len() ==> bit.bitpos() == start * 8,
            good == stored_run(data@, start as int) is Some,
            good ==> whole == stored_run(data@, start as int).unwrap(),
        ensures
            out@.len() <= max_out,
            start < data@.len(),
            good ==> out@ == whole,
        decreases bit.remaining(),
    {
        let ghost out0 = out@;
        let bfinal: u32 = match bit.read_bit() {
            Ok(b) => b,
            Err(e) => {
                return Err(e);
            },
        };
        proof {
            if good {
                assert((cur * 8 + 1 + 9) / 8 == cur + 1) by (nonlinear_arith);
                lemma_stored_run_len(data@, cur);
                let len = stored_len(data@, cur);
                assert(out0 + data@.subrange(cur + 5, cur + 5 + len) =~= out0 + stored_payload(data@, cur));
            }
        }
        match decode_block(&mut bit, &mut out, max_out) {
            Ok(()) => {},
            Err(e) => {
                proof {
                    if good {
                        let rest = stored_run(data@, cur).unwrap();
                        assert(whole.len() == out0.len() + rest.len());
                    }
                }
                return Err(e);
            },
        }
        proof {
            if good {
                let len = stored_len(data@, cur);
                let rest = stored_run(data@, cur).unwrap();
                if bfinal == 1 {
                    assert(rest == stored_payload(data@, cur));
                    assert(whole =~= out@);
                } else {
                    let nrest = stored_run(data@, cur + 5 + len).unwrap();
                    assert(rest == stored_payload(data@, cur) + nrest);
                    assert(whole =~= out@ + nrest);
                    cur = cur + 5 + len;
                }
            }
        }
        if bfinal == 1 {
            break ;
        }
        if out.len() > max_out {
            return Err(InflateError::OutputTooLarge { limit: max_out });
        }
    }
    Ok(out)
}

/// Decompresses a raw DEFLATE stream; fails once the output would exceed
/// `max_out` bytes.
pub fn inflate(data: &[u8], max_out: usize) -> (r: Result<Vec<u8>, InflateError>)
    ensures
        r matches Ok(v) ==> v@.len() <= max_out,
        data@.len() == 0 ==> fails_with(r, "bitstream end"@),
        stored_run_result(r, data@, 0, max_out),
{
    inflate_from(data, 0, max_out)
}

/// End of a zero-terminated header field that starts at `p`.
pub open spec fn zero_end(data: Seq<u8>, p: int) -> int
    decreases data.len() - p,
{
    if p < 0 || p >= data.len() || data[p] == 0 {
        p
    } else {
        zero_end(data, p + 1)
    }
}

pub open spec fn gzip_magic_ok(data: Seq<u8>) -> bool {
    data.len() >= 10 && data[0] == 0x1f && data[1] == 0x8b && data[2] == 8
}

/// The optional-field header is cut short before its length field.
pub open spec fn gzip_xlen_missing(data: Seq<u8>) -> bool {
    data[3] & 4 != 0 && data.len() < 12
}

/// Where the DEFLATE stream of a gzip member starts.
pub open spec fn gzip_payload_start(data: Seq<u8>) -> int {
    let flg = data[3];
    let p1 = if flg & 4 != 0 { 12 + crate::bytes::le16(data, 10) } else { 10 };
    let p2 = if flg & 8 != 0 { zero_end(data, p1) + 1 } else { p1 };
    let p3 = if flg & 16 != 0 { zero_end(data, p2) + 1 } else { p2 };
    if flg & 2 != 0 { p3 + 2 } else { p3 }
}

proof fn lemma_zero_end_bound(data: Seq<u8>, p: int)
    requires
        0 <= p,
    ensures
        p <= zero_end(data, p),
        zero_end(data, p) <= if p > data.len() { p } else { data.len() as int },
    decreases data.len() - p,
{
    if p < data.len() && data[p] != 0 {
        lemma_zero_end_bound(data, p + 1);
    }
}

fn skip_zero_terminated(data: &[u8], p: usize) -> (r: usize)
    requires
        p <= data@.len() + 0x10000,
    ensures
        r == zero_end(data@, p as int),
{
    let mut pos: usize = p;
    while pos < data.len() && data[pos] != 0
        invariant
            p <= pos,
            pos <= data@.len() + 0x10000,
            zero_end(data@, p as int) == zero_end(data@, pos as int),
        decreases data@.len() - pos,
    {
        pos = pos + 1;
    }
    pos
}

/// Decompresses a gzip member (RFC 1952): checks the magic and method,
/// skips the optional header fields and inflates the stream after them.
pub fn gunzip(data: &[u8], max_out: usize) -> (r: Result<Vec<u8>, InflateError>)
    requires
        data@.len() <= usize::MAX - 0x20000,
    ensures
        !gzip_magic_ok(data@) ==> fails_with(r, "not gzip/deflate"@),
        gzip_magic_ok(data@) && gzip_xlen_missing(data@) ==> fails_with(r, "gzip xlen"@),
        gzip_magic_ok(data@) && !gzip_xlen_missing(data@) && gzip_payload_start(data@) >= data@.len()
            ==> fails_with(r, "gzip header overflow"@),
        r matches Ok(v) ==> v@.len() <= max_out,
        gzip_magic_ok(data@) && !gzip_xlen_missing(data@) ==> stored_run_result(r, data@, gzip_payload_start(data@), max_out),
{
    if data.len() < 10 || data[0] != 0x1F || data[1] != 0x8B || data[2] != 8 {
        return Err(InflateError::Corrupt("not gzip/deflate"));
    }
    let flg: u8 = data[3];
    let mut pos: usize = 10;
    if flg & 0x04 != 0 {
        if pos + 2 > data.len() {
            return Err(InflateError::Corrupt("gzip xlen"));
        }
        let xlen: usize = (data[pos] as usize) + (data[pos + 1] as usize) * 256;
        pos = pos + 2 + xlen;
    }
    proof {
        lemma_zero_end_bound(data@, pos as int);
    }
    if flg & 0x08 != 0 {
        pos = skip_zero_terminated(data, pos) + 1;
    }
    proof {
        lemma_zero_end_bound(data@, pos as int);
    }
    if flg & 0x10 != 0 {
        pos = skip_zero_terminated(data, pos) + 1;
    }
    if flg & 0x02 != 0 {
        pos = pos + 2;
    }
    assert(pos == gzip_payload_start(data@));
    if pos >= data.len() {
        return Err(InflateError::Corrupt("gzip header overflow"));
    }
    inflate_from(data, pos, max_out)
}

} // verus!
