use vstd::prelude::*;
use vstd::utf8::{decode_utf8, encode_utf8};

use crate::text::{
    all_words, char_vec, digit_chars, digits, join, join_range, lemma_tokens_are_words,
    lemma_tokens_join, push_all, push_decimal, push_decimal_chars, push_str, split_tokens,
    string_of, tokens, utf8_bytes,
};

verus! {

/// Threshold used when the configuration gives none (10 MiB).
pub const DEFAULT_CHUNK_SIZE: usize = 10485760;

/// Accounted header overhead of a file packed whole, besides its path length.
pub const HEADER_OVERHEAD: usize = 10;

/// One file's text inside a chunk: its path, its part number when the file
/// was force-split, and the data written for it.
pub ghost struct Fragment {
    pub path: Seq<u8>,
    pub part: Option<nat>,
    pub data: Seq<u8>,
}

/// What a chunk holds: its index, its part number when it carries one part
/// of a force-split file, and its fragments in order.
pub ghost struct ChunkModel {
    pub index: nat,
    pub part: Option<nat>,
    pub frags: Seq<Fragment>,
}

/// State of the packer after some files: chunks emitted so far, fragments
/// waiting in the buffer, and the accumulated size of the buffer.
pub ghost struct PackState {
    pub chunks: Seq<ChunkModel>,
    pub frags: Seq<Fragment>,
    pub used: nat,
}

/// A chunk as emitted: index, optional part number, and the bytes to write.
#[derive(Clone, Debug)]
pub struct Chunk {
    pub index: usize,
    pub part: Option<usize>,
    pub body: Vec<u8>,
}

pub open spec fn opt_nat(p: Option<usize>) -> Option<nat> {
    match p {
        Some(v) => Some(v as nat),
        None => None,
    }
}

/// `"chunk <index>\n>>>> <path>[:part <p>]\n"`
pub open spec fn header(index: nat, path: Seq<u8>, part: Option<nat>) -> Seq<u8> {
    let tail = match part {
        Some(p) => seq![58u8, 112u8, 97u8, 114u8, 116u8, 32u8] + digits(p) + seq![10u8],
        None => seq![10u8],
    };
    seq![99u8, 104u8, 117u8, 110u8, 107u8, 32u8] + digits(index) + seq![
        10u8,
        62u8,
        62u8,
        62u8,
        62u8,
        32u8,
    ] + path + tail
}

/// A fragment as written into a chunk of the given index.
pub open spec fn frag_text(index: nat, f: Fragment) -> Seq<u8> {
    header(index, f.path, f.part) + f.data + seq![10u8]
}

pub open spec fn render_frags(index: nat, frags: Seq<Fragment>) -> Seq<u8>
    decreases frags.len(),
{
    if frags.len() == 0 {
        seq![]
    } else {
        render_frags(index, frags.drop_last()) + frag_text(index, frags.last())
    }
}

/// The bytes of a chunk.
pub open spec fn render(c: ChunkModel) -> Seq<u8> {
    render_frags(c.index, c.frags)
}

/// An emitted chunk agrees with its model.
pub open spec fn chunk_is(c: Chunk, m: ChunkModel) -> bool {
    c.index as nat == m.index && opt_nat(c.part) == m.part && c.body@ == render(m)
}

/// The size of a file's content: its bytes, or its whitespace-delimited tokens.
pub open spec fn measure(content: Seq<char>, token_mode: bool) -> nat {
    if token_mode {
        tokens(content).len()
    } else {
        encode_utf8(content).len()
    }
}

/// `s` cut into consecutive pieces of `t` elements, the last one shorter.
pub open spec fn pieces<A>(s: Seq<A>, t: nat) -> Seq<Seq<A>>
    decreases s.len(),
{
    if s.len() == 0 || t == 0 {
        seq![]
    } else if s.len() <= t {
        seq![s]
    } else {
        seq![s.take(t as int)] + pieces(s.skip(t as int), t)
    }
}

/// The data of each part of a force-split file.
pub open spec fn part_data(content: Seq<char>, t: nat, token_mode: bool) -> Seq<Seq<u8>> {
    if token_mode {
        pieces(tokens(content), t).map_values(|p: Seq<Seq<char>>| encode_utf8(join(p)))
    } else {
        pieces(encode_utf8(content), t)
    }
}

pub open spec fn part_chunk(index: nat, path: Seq<u8>, p: nat, data: Seq<u8>) -> ChunkModel {
    ChunkModel {
        index,
        part: Some(p),
        frags: seq![Fragment { path, part: Some(p), data }],
    }
}

/// Emits the buffer as a chunk when it holds anything.
pub open spec fn flush(s: PackState) -> PackState {
    if s.frags.len() > 0 {
        PackState {
            chunks: s.chunks.push(ChunkModel { index: s.chunks.len(), part: None, frags: s.frags }),
            frags: seq![],
            used: 0,
        }
    } else {
        s
    }
}

/// The packer's step on one file.
pub open spec fn step(s: PackState, path: Seq<char>, content: Seq<char>, t: nat, token_mode: bool) -> PackState {
    let n = measure(content, token_mode);
    let p = encode_utf8(path);
    if n >= t {
        let s1 = flush(s);
        let parts = part_data(content, t, token_mode);
        PackState {
            chunks: s1.chunks + Seq::new(
                parts.len(),
                |i: int| part_chunk(s1.chunks.len() + i as nat, p, i as nat, parts[i]),
            ),
            frags: seq![],
            used: 0,
        }
    } else {
        let add = n + HEADER_OVERHEAD + p.len();
        let s1 = if s.used + add > t && s.frags.len() > 0 {
            flush(s)
        } else {
            s
        };
        PackState {
            chunks: s1.chunks,
            frags: s1.frags.push(Fragment { path: p, part: None, data: encode_utf8(content) }),
            used: (s1.used + add) as nat,
        }
    }
}

pub open spec fn entry_path(e: (String, String, i32)) -> Seq<char> {
    e.0@
}

pub open spec fn entry_content(e: (String, String, i32)) -> Seq<char> {
    e.1@
}

/// The packer's state after the first `i` entries.
pub open spec fn run(entries: Seq<(String, String, i32)>, i: nat, t: nat, token_mode: bool) -> PackState
    decreases i,
{
    if i == 0 || i > entries.len() {
        PackState { chunks: seq![], frags: seq![], used: 0 }
    } else {
        step(
            run(entries, (i - 1) as nat, t, token_mode),
            entry_path(entries[i - 1]),
            entry_content(entries[i - 1]),
            t,
            token_mode,
        )
    }
}

/// The chunks that packing `entries` in order yields.
pub open spec fn pack(entries: Seq<(String, String, i32)>, t: nat, token_mode: bool) -> Seq<ChunkModel> {
    flush(run(entries, entries.len(), t, token_mode)).chunks
}

/// A file's accounted size stays within what a `usize` counts.
pub open spec fn entry_fits(e: (String, String, i32), token_mode: bool) -> bool {
    encode_utf8(e.0@).len() + measure(e.1@, token_mode) + HEADER_OVERHEAD <= usize::MAX
}

proof fn lemma_pieces_step<A>(src: Seq<A>, start: int, t: nat)
    requires
        0 <= start < src.len(),
        t > 0,
    ensures
        ({
            let end = if src.len() - start > t {
                start + t
            } else {
                src.len() as int
            };
            pieces(src.skip(start), t) == seq![src.subrange(start, end)] + pieces(
                src.skip(end),
                t,
            )
        }),
{
    let s = src.skip(start);
    if src.len() - start > t {
        assert(s.take(t as int) =~= src.subrange(start, start + t));
        assert(s.skip(t as int) =~= src.skip(start + t));
    } else {
        assert(s =~= src.subrange(start, src.len() as int));
        assert(src.skip(src.len() as int).len() == 0);
        assert(pieces(src.skip(src.len() as int), t) =~= Seq::<Seq<A>>::empty());
        assert(seq![s] =~= seq![s] + Seq::<Seq<A>>::empty());
    }
}

proof fn lemma_render_push(index: nat, frags: Seq<Fragment>, f: Fragment)
    ensures
        render_frags(index, frags.push(f)) == render_frags(index, frags) + frag_text(index, f),
{
    assert(frags.push(f).drop_last() =~= frags);
}

/// Appends the header of a fragment.
fn push_header(buf: &mut Vec<u8>, index: usize, path: &Vec<u8>, part: Option<usize>)
    ensures
        final(buf)@ == old(buf)@ + header(index as nat, path@, opt_nat(part)),
{
    let ghost start = buf@;
    buf.push(99u8);
    buf.push(104u8);
    buf.push(117u8);
    buf.push(110u8);
    buf.push(107u8);
    buf.push(32u8);
    push_decimal(buf, index);
    buf.push(10u8);
    buf.push(62u8);
    buf.push(62u8);
    buf.push(62u8);
    buf.push(62u8);
    buf.push(32u8);
    push_all(buf, path.as_slice());
    let ghost mid = buf@;
    match part {
        Some(p) => {
            buf.push(58u8);
            buf.push(112u8);
            buf.push(97u8);
            buf.push(114u8);
            buf.push(116u8);
            buf.push(32u8);
            push_decimal(buf, p);
            buf.push(10u8);
            assert(buf@ =~= mid + (seq![58u8, 112u8, 97u8, 114u8, 116u8, 32u8] + digits(p as nat)
                + seq![10u8]));
        },
        None => {
            buf.push(10u8);
            assert(buf@ =~= mid + seq![10u8]);
        },
    }
    assert(buf@ =~= start + header(index as nat, path@, opt_nat(part)));
}

/// Appends `src[lo..hi]`.
fn push_range(buf: &mut Vec<u8>, src: &Vec<u8>, lo: usize, hi: usize)
    requires
        lo <= hi <= src@.len(),
    ensures
        final(buf)@ == old(buf)@ + src@.subrange(lo as int, hi as int),
{
    let ghost start = buf@;
    let mut k: usize = lo;
    while k < hi
        invariant
            lo <= k <= hi <= src@.len(),
            buf@ == start + src@.subrange(lo as int, k as int),
        decreases hi - k,
    {
        buf.push(src[k]);
        k = k + 1;
        assert(buf@ =~= start + src@.subrange(lo as int, k as int));
    }
}

/// Running state of the packer: emitted chunks, the buffer, whether it holds
/// a fragment, and its accumulated size.
struct Packer {
    out: Vec<Chunk>,
    buffer: Vec<u8>,
    has: bool,
    used: usize,
}

impl Packer {
    spec fn holds(&self, st: PackState) -> bool {
        &&& self.out@.len() == st.chunks.len()
        &&& forall|j: int|
            0 <= j < self.out@.len() ==> chunk_is(#[trigger] self.out@[j], st.chunks[j])
                && st.chunks[j].index == j
        &&& self.buffer@ == render_frags(st.chunks.len(), st.frags)
        &&& self.has == (st.frags.len() > 0)
        &&& self.used as nat == st.used
        &&& (!self.has ==> self.used == 0)
    }

    fn flush(&mut self, Ghost(st): Ghost<PackState>)
        requires
            old(self).holds(st),
        ensures
            final(self).holds(flush(st)),
    {
        if self.has {
            let mut body: Vec<u8> = Vec::new();
            std::mem::swap(&mut body, &mut self.buffer);
            let index = self.out.len();
            self.out.push(Chunk { index, part: None, body });
            self.has = false;
            self.used = 0;
            assert(self.buffer@ =~= render_frags(st.chunks.len() + 1, seq![]));
        }
    }
}

impl Packer {
    /// Emits a file whose size reaches the threshold as parts of its own,
    /// after flushing the buffer.
    fn emit_parts(
        &mut self,
        path: &String,
        content: &String,
        pbytes: &Vec<u8>,
        cbytes: &Vec<u8>,
        toks: &Vec<Vec<char>>,
        n: usize,
        threshold: usize,
        token_mode: bool,
        Ghost(st): Ghost<PackState>,
    )
        requires
            old(self).holds(st),
            0 < threshold <= n,
            n as nat == measure(content@, token_mode),
            token_mode ==> toks@.map_values(|v: Vec<char>| v@) == tokens(content@),
            !token_mode ==> cbytes@ == encode_utf8(content@),
            pbytes@ == encode_utf8(path@),
        ensures
            final(self).holds(step(st, path@, content@, threshold as nat, token_mode)),
    {
        let ghost t = threshold as nat;
        self.flush(Ghost(st));
        let ghost s1 = flush(st);
        let ghost parts = part_data(content@, t, token_mode);
        let ghost all_toks = toks@.map_values(|v: Vec<char>| v@);
        let ghost src_len = if token_mode {
            all_toks.len()
        } else {
            cbytes@.len()
        };
        let ghost base = s1.chunks.len();
        let mut start: usize = 0;
        let mut part: usize = 0;
        proof {
            if token_mode {
                assert(all_toks.skip(0) =~= all_toks);
            } else {
                assert(cbytes@.skip(0) =~= cbytes@);
            }
            assert(s1.chunks + Seq::new(
                0,
                |q: int| part_chunk(base + q as nat, encode_utf8(path@), q as nat, parts[q]),
            ) =~= s1.chunks);
        }
        while start < n
            invariant
                start <= n,
                n as nat == src_len,
                threshold > 0,
                t == threshold as nat,
                src_len == if token_mode {
                    all_toks.len()
                } else {
                    cbytes@.len()
                },
                all_toks == toks@.map_values(|v: Vec<char>| v@),
                token_mode ==> all_toks == tokens(content@),
                !token_mode ==> cbytes@ == encode_utf8(content@),
                pbytes@ == encode_utf8(path@),
                parts == part_data(content@, t, token_mode),
                part <= parts.len(),
                part <= start,
                token_mode ==> pieces(all_toks.skip(start as int), t) == pieces(all_toks, t).skip(
                    part as int,
                ),
                !token_mode ==> pieces(cbytes@.skip(start as int), t) == parts.skip(part as int),
                token_mode ==> parts.len() == pieces(all_toks, t).len(),
                base == s1.chunks.len(),
                self.holds(
                    PackState {
                        chunks: s1.chunks + Seq::new(
                            part as nat,
                            |q: int|
                                part_chunk(base + q as nat, encode_utf8(path@), q as nat, parts[q]),
                        ),
                        frags: seq![],
                        used: 0,
                    },
                ),
            decreases n - start,
        {
            let end: usize = if n - start > threshold {
                start + threshold
            } else {
                n
            };
            let ghost cur_chunks = s1.chunks + Seq::new(
                part as nat,
                |q: int| part_chunk(base + q as nat, encode_utf8(path@), q as nat, parts[q]),
            );
            let mut body: Vec<u8> = Vec::new();
            let index = self.out.len();
            push_header(&mut body, index, pbytes, Some(part));
            proof {
                if token_mode {
                    lemma_pieces_step(all_toks, start as int, t);
                    assert(pieces(all_toks, t).skip(part as int)[0] == pieces(all_toks, t)[part as int]);
                } else {
                    lemma_pieces_step(cbytes@, start as int, t);
                    assert(parts.skip(part as int)[0] == parts[part as int]);
                }
            }
            if token_mode {
                let joined = join_range(toks, start, end);
                let s = string_of(&joined);
                let data = utf8_bytes(s.as_str());
                proof {
                    assert(all_toks.subrange(start as int, end as int) == pieces(all_toks, t)[part as int]);
                    assert(data@ == parts[part as int]);
                }
                push_all(&mut body, data.as_slice());
            } else {
                push_range(&mut body, cbytes, start, end);
            }
            body.push(10u8);
            let ghost m = part_chunk(
                base + part as nat,
                encode_utf8(path@),
                part as nat,
                parts[part as int],
            );
            proof {
                assert(m.frags.drop_last() =~= Seq::<Fragment>::empty());
                assert(body@ =~= render(m));
            }
            self.out.push(Chunk { index, part: Some(part), body });
            proof {
                let next_chunks = s1.chunks + Seq::new(
                    (part + 1) as nat,
                    |q: int| part_chunk(base + q as nat, encode_utf8(path@), q as nat, parts[q]),
                );
                assert(next_chunks =~= cur_chunks.push(m));
                assert(self.buffer@ =~= render_frags(next_chunks.len(), seq![]));
                if token_mode {
                    assert(pieces(all_toks, t).skip(part + 1) =~= pieces(all_toks, t).skip(
                        part as int,
                    ).skip(1));
                    assert(pieces(all_toks.skip(end as int), t) =~= pieces(
                        all_toks.skip(start as int),
                        t,
                    ).skip(1));
                } else {
                    assert(parts.skip(part + 1) =~= parts.skip(part as int).skip(1));
                    assert(pieces(cbytes@.skip(end as int), t) =~= pieces(
                        cbytes@.skip(start as int),
                        t,
                    ).skip(1));
                }
            }
            start = end;
            part = part + 1;
        }
        proof {
            if token_mode {
                assert(all_toks.skip(n as int).len() == 0);
                assert(pieces(all_toks.skip(n as int), t).len() == 0);
            } else {
                assert(cbytes@.skip(n as int).len() == 0);
                assert(pieces(cbytes@.skip(n as int), t).len() == 0);
            }
            assert(part == parts.len());
        }
    }

    /// Appends a file smaller than the threshold to the buffer, flushing
    /// the buffer first when the file would push it over.
    fn emit_whole(
        &mut self,
        path: &String,
        content: &String,
        pbytes: &Vec<u8>,
        cbytes: &Vec<u8>,
        n: usize,
        threshold: usize,
        token_mode: bool,
        Ghost(st): Ghost<PackState>,
    )
        requires
            old(self).holds(st),
            n < threshold,
            n as nat == measure(content@, token_mode),
            n + HEADER_OVERHEAD + pbytes@.len() <= usize::MAX,
            cbytes@ == encode_utf8(content@),
            pbytes@ == encode_utf8(path@),
        ensures
            final(self).holds(step(st, path@, content@, threshold as nat, token_mode)),
    {
        let ghost t = threshold as nat;
        let add: usize = n + HEADER_OVERHEAD + pbytes.len();
        if self.has && (self.used > threshold || add > threshold - self.used) {
            self.flush(Ghost(st));
        }
        let ghost s1 = if st.used + add > t && st.frags.len() > 0 {
            flush(st)
        } else {
            st
        };
        let ghost f = Fragment { path: encode_utf8(path@), part: None, data: encode_utf8(content@) };
        let index = self.out.len();
        push_header(&mut self.buffer, index, pbytes, None);
        push_all(&mut self.buffer, cbytes.as_slice());
        self.buffer.push(10u8);
        proof {
            lemma_render_push(s1.chunks.len(), s1.frags, f);
        }
        self.used = self.used + add;
        self.has = true;
        proof {
            assert(self.buffer@ =~= render_frags(s1.chunks.len(), s1.frags.push(f)));
        }
    }
}

/// Packs the sorted entries `(path, content, priority)` into chunks of at
/// most `threshold` bytes (or tokens, in token mode); a file whose own size
/// reaches the threshold is split into parts of its own.
pub fn pack_chunks(entries: &[(String, String, i32)], threshold: usize, token_mode: bool) -> (r: Vec<Chunk>)
    requires
        threshold > 0,
        forall|i: int| 0 <= i < entries@.len() ==> entry_fits(#[trigger] entries@[i], token_mode),
    ensures
        r@.len() == pack(entries@, threshold as nat, token_mode).len(),
        forall|i: int|
            0 <= i < r@.len() ==> chunk_is(#[trigger] r@[i], pack(entries@, threshold as nat, token_mode)[i]),
        forall|i: int| 0 <= i < r@.len() ==> (#[trigger] r@[i]).index == i,
{
    let ghost t = threshold as nat;
    let mut pk = Packer { out: Vec::new(), buffer: Vec::new(), has: false, used: 0 };
    let mut i: usize = 0;
    proof {
        assert(pk.buffer@ =~= render_frags(0, seq![]));
    }
    while i < entries.len()
        invariant
            i <= entries@.len(),
            threshold > 0,
            t == threshold as nat,
            forall|k: int| 0 <= k < entries@.len() ==> entry_fits(#[trigger] entries@[k], token_mode),
            pk.holds(run(entries@, i as nat, t, token_mode)),
        decreases entries@.len() - i,
    {
        let ghost st = run(entries@, i as nat, t, token_mode);
        let path = &entries[i].0;
        let content = &entries[i].1;
        assert(entry_fits(entries@[i as int], token_mode));
        let pbytes = utf8_bytes(path.as_str());
        let cbytes = utf8_bytes(content.as_str());
        let mut toks: Vec<Vec<char>> = Vec::new();
        let n: usize;
        if token_mode {
            let chars = char_vec(content.as_str());
            toks = split_tokens(&chars);
            n = toks.len();
        } else {
            n = cbytes.len();
        }
        if n >= threshold {
            pk.emit_parts(path, content, &pbytes, &cbytes, &toks, n, threshold, token_mode, Ghost(st));
        } else {
            pk.emit_whole(path, content, &pbytes, &cbytes, n, threshold, token_mode, Ghost(st));
        }
        i = i + 1;
    }
    let ghost st = run(entries@, i as nat, t, token_mode);
    pk.flush(Ghost(st));
    proof {
        assert(entries@.len() == i);
    }
    pk.out
}

/// Whether packing can account for this entry: its path length, size and
/// header overhead add up within a `usize`.
pub fn can_pack(entry: &(String, String, i32), token_mode: bool) -> (r: bool)
    ensures
        r == entry_fits(*entry, token_mode),
{
    let p = utf8_bytes(entry.0.as_str());
    let n: usize = if token_mode {
        let chars = char_vec(entry.1.as_str());
        split_tokens(&chars).len()
    } else {
        utf8_bytes(entry.1.as_str()).len()
    };
    p.len() <= usize::MAX - HEADER_OVERHEAD && n <= usize::MAX - HEADER_OVERHEAD - p.len()
}

/// `chunk-<index>.txt`, or `chunk-<index>-part-<part>.txt` for a part.
pub open spec fn file_name(index: nat, part: Option<nat>) -> Seq<char> {
    "chunk-"@ + digit_chars(index) + match part {
        Some(p) => "-part-"@ + digit_chars(p),
        None => seq![],
    } + ".txt"@
}

/// The name of the file a chunk is written to.
pub fn chunk_file_name(chunk: &Chunk) -> (r: String)
    ensures
        r@ == file_name(chunk.index as nat, opt_nat(chunk.part)),
{
    let mut out: Vec<char> = Vec::new();
    push_str(&mut out, "chunk-");
    push_decimal_chars(&mut out, chunk.index);
    let ghost mid = out@;
    match chunk.part {
        Some(p) => {
            push_str(&mut out, "-part-");
            push_decimal_chars(&mut out, p);
            assert(out@ =~= mid + ("-part-"@ + digit_chars(p as nat)));
        },
        None => {
            assert(out@ =~= mid + Seq::<char>::empty());
        },
    }
    push_str(&mut out, ".txt");
    string_of(&out)
}

/// The threshold a configured size gives: the default when none is set.
pub fn threshold_of(max_size: Option<usize>) -> (r: usize)
    ensures
        r == match max_size {
            Some(v) => v,
            None => DEFAULT_CHUNK_SIZE,
        },
{
    match max_size {
        Some(v) => v,
        None => DEFAULT_CHUNK_SIZE,
    }
}

/// A file whose size equals the threshold counts as reaching it: packed
/// alone, it comes out as a single chunk that holds part 0 of it and
/// nothing else.
pub proof fn lemma_threshold_is_inclusive(e: (String, String, i32), t: nat, token_mode: bool)
    requires
        t > 0,
        measure(e.1@, token_mode) == t,
    ensures
        part_data(e.1@, t, token_mode).len() == 1,
        pack(seq![e], t, token_mode) == seq![
            part_chunk(0, encode_utf8(e.0@), 0, part_data(e.1@, t, token_mode)[0]),
        ],
{
    let src_t = tokens(e.1@);
    let src_b = encode_utf8(e.1@);
    if token_mode {
        assert(pieces(src_t, t) == seq![src_t]);
    } else {
        assert(pieces(src_b, t) == seq![src_b]);
    }
    let entries = seq![e];
    let init = PackState { chunks: seq![], frags: seq![], used: 0 };
    assert(run(entries, 0, t, token_mode) == init);
    assert(flush(init) == init);
    let parts = part_data(e.1@, t, token_mode);
    let st = run(entries, 1, t, token_mode);
    assert(st.chunks =~= seq![part_chunk(0, encode_utf8(e.0@), 0, parts[0])]);
    assert(flush(st) == st);
}

/// What each fragment's data shows through `view`, in order.
pub open spec fn gather_frags<X>(fs: Seq<Fragment>, view: spec_fn(Seq<u8>) -> Seq<X>) -> Seq<X>
    decreases fs.len(),
{
    if fs.len() == 0 {
        seq![]
    } else {
        gather_frags(fs.drop_last(), view) + view(fs.last().data)
    }
}

/// What every fragment of the chunks shows through `view`, in chunk order.
pub open spec fn gather<X>(cs: Seq<ChunkModel>, view: spec_fn(Seq<u8>) -> Seq<X>) -> Seq<X>
    decreases cs.len(),
{
    if cs.len() == 0 {
        seq![]
    } else {
        gather(cs.drop_last(), view) + gather_frags(cs.last().frags, view)
    }
}

/// The pieces concatenated in order.
pub open spec fn concat_all<X>(ps: Seq<Seq<X>>) -> Seq<X>
    decreases ps.len(),
{
    if ps.len() == 0 {
        seq![]
    } else {
        ps[0] + concat_all(ps.skip(1))
    }
}

/// What the contents of the first `i` entries show through `view`, one
/// after the other.
pub open spec fn gather_contents<X>(
    entries: Seq<(String, String, i32)>,
    i: nat,
    view: spec_fn(Seq<char>) -> Seq<X>,
) -> Seq<X>
    decreases i,
{
    if i == 0 || i > entries.len() {
        seq![]
    } else {
        gather_contents(entries, (i - 1) as nat, view) + view(entries[i - 1].1@)
    }
}

/// Fragment data as it is.
pub open spec fn data_bytes() -> spec_fn(Seq<u8>) -> Seq<u8> {
    |d: Seq<u8>| d
}

/// Fragment data as whitespace-delimited tokens of its text.
pub open spec fn data_tokens() -> spec_fn(Seq<u8>) -> Seq<Seq<char>> {
    |d: Seq<u8>| tokens(decode_utf8(d))
}

/// File content as UTF-8 bytes.
pub open spec fn content_bytes() -> spec_fn(Seq<char>) -> Seq<u8> {
    |c: Seq<char>| encode_utf8(c)
}

/// File content as whitespace-delimited tokens.
pub open spec fn content_tokens() -> spec_fn(Seq<char>) -> Seq<Seq<char>> {
    |c: Seq<char>| tokens(c)
}

/// How a packing mode's fragments relate to the contents they came from:
/// a whole file's data shows its content, and the parts of a split file,
/// shown one after the other, show its content.
pub open spec fn views_agree<X>(
    token_mode: bool,
    t: nat,
    fv: spec_fn(Seq<u8>) -> Seq<X>,
    cv: spec_fn(Seq<char>) -> Seq<X>,
) -> bool {
    &&& forall|c: Seq<char>| #[trigger] fv(encode_utf8(c)) == cv(c)
    &&& forall|c: Seq<char>|
        measure(c, token_mode) >= t ==> #[trigger] concat_all(
            part_data(c, t, token_mode).map_values(fv),
        ) == cv(c)
}

proof fn lemma_concat_push<X>(ps: Seq<Seq<X>>, x: Seq<X>)
    ensures
        concat_all(ps.push(x)) == concat_all(ps) + x,
    decreases ps.len(),
{
    if ps.len() == 0 {
        assert(ps.push(x).skip(1) =~= Seq::<Seq<X>>::empty());
        assert(concat_all(Seq::<Seq<X>>::empty()) =~= Seq::<X>::empty());
        assert(concat_all(ps.push(x)) == ps.push(x)[0] + concat_all(ps.push(x).skip(1)));
        assert(concat_all(ps.push(x)) =~= x);
        assert(concat_all(ps) =~= Seq::<X>::empty());
    } else {
        assert(ps.push(x).skip(1) =~= ps.skip(1).push(x));
        lemma_concat_push(ps.skip(1), x);
        assert(concat_all(ps.push(x)) =~= concat_all(ps) + x);
    }
}

proof fn lemma_concat_pieces<A>(s: Seq<A>, t: nat)
    requires
        t > 0,
    ensures
        concat_all(pieces(s, t)) == s,
    decreases s.len(),
{
    if s.len() == 0 {
        assert(concat_all(pieces(s, t)) =~= s);
    } else if s.len() <= t {
        assert(seq![s].skip(1) =~= Seq::<Seq<A>>::empty());
        assert(concat_all(Seq::<Seq<A>>::empty()) =~= Seq::<A>::empty());
        assert(concat_all(seq![s]) == seq![s][0] + concat_all(seq![s].skip(1)));
        assert(concat_all(seq![s]) =~= s);
    } else {
        let rest = pieces(s.skip(t as int), t);
        lemma_concat_pieces(s.skip(t as int), t);
        assert((seq![s.take(t as int)] + rest).skip(1) =~= rest);
        assert(s.take(t as int) + s.skip(t as int) =~= s);
    }
}

proof fn lemma_flush_gather<X>(s: PackState, fv: spec_fn(Seq<u8>) -> Seq<X>)
    ensures
        gather(flush(s).chunks, fv) + gather_frags(flush(s).frags, fv) == gather(s.chunks, fv)
            + gather_frags(s.frags, fv),
{
    if s.frags.len() > 0 {
        let c = ChunkModel { index: s.chunks.len(), part: None, frags: s.frags };
        assert(s.chunks.push(c).drop_last() =~= s.chunks);
        assert(gather_frags(Seq::<Fragment>::empty(), fv) =~= Seq::<X>::empty());
        assert(gather(flush(s).chunks, fv) + gather_frags(flush(s).frags, fv) =~= gather(
            s.chunks,
            fv,
        ) + gather_frags(s.frags, fv));
    }
}

proof fn lemma_parts_gather<X>(
    c: Seq<ChunkModel>,
    base: nat,
    path: Seq<u8>,
    parts: Seq<Seq<u8>>,
    k: nat,
    fv: spec_fn(Seq<u8>) -> Seq<X>,
)
    requires
        k <= parts.len(),
    ensures
        gather(
            c + Seq::new(k, |i: int| part_chunk(base + i as nat, path, i as nat, parts[i])),
            fv,
        ) == gather(c, fv) + concat_all(parts.map_values(fv).take(k as int)),
    decreases k,
{
    let f = |i: int| part_chunk(base + i as nat, path, i as nat, parts[i]);
    let mapped = parts.map_values(fv);
    if k == 0 {
        assert(c + Seq::new(0, f) =~= c);
        assert(concat_all(mapped.take(0)) =~= Seq::<X>::empty());
        assert(gather(c, fv) + Seq::<X>::empty() =~= gather(c, fv));
    } else {
        let k1 = (k - 1) as nat;
        lemma_parts_gather(c, base, path, parts, k1, fv);
        let whole = c + Seq::new(k, f);
        assert(whole.drop_last() =~= c + Seq::new(k1, f));
        let last = f(k1 as int);
        assert(whole.last() == last);
        assert(last.frags.drop_last() =~= Seq::<Fragment>::empty());
        assert(gather_frags(Seq::<Fragment>::empty(), fv) =~= Seq::<X>::empty());
        assert(gather_frags(last.frags, fv) == gather_frags(last.frags.drop_last(), fv) + fv(
            last.frags.last().data,
        ));
        assert(gather_frags(last.frags, fv) =~= mapped[k1 as int]);
        assert(mapped.take(k as int) =~= mapped.take(k1 as int).push(mapped[k1 as int]));
        lemma_concat_push(mapped.take(k1 as int), mapped[k1 as int]);
    }
}

proof fn lemma_run_gather<X>(
    entries: Seq<(String, String, i32)>,
    i: nat,
    t: nat,
    token_mode: bool,
    fv: spec_fn(Seq<u8>) -> Seq<X>,
    cv: spec_fn(Seq<char>) -> Seq<X>,
)
    requires
        t > 0,
        i <= entries.len(),
        views_agree(token_mode, t, fv, cv),
    ensures
        ({
            let st = run(entries, i, t, token_mode);
            gather(st.chunks, fv) + gather_frags(st.frags, fv) == gather_contents(entries, i, cv)
        }),
    decreases i,
{
    if i == 0 {
        assert(gather(Seq::<ChunkModel>::empty(), fv) + gather_frags(Seq::<Fragment>::empty(), fv)
            =~= Seq::<X>::empty());
    } else {
        let i1 = (i - 1) as nat;
        lemma_run_gather(entries, i1, t, token_mode, fv, cv);
        let s = run(entries, i1, t, token_mode);
        let e = entries[i1 as int];
        let content = e.1@;
        let p = encode_utf8(e.0@);
        lemma_flush_gather(s, fv);
        let st = run(entries, i, t, token_mode);
        if measure(content, token_mode) >= t {
            let s1 = flush(s);
            let parts = part_data(content, t, token_mode);
            lemma_parts_gather(s1.chunks, s1.chunks.len(), p, parts, parts.len(), fv);
            assert(parts.map_values(fv).take(parts.len() as int) =~= parts.map_values(fv));
            assert(concat_all(parts.map_values(fv)) == cv(content));
            assert(gather_frags(Seq::<Fragment>::empty(), fv) =~= Seq::<X>::empty());
            assert(gather_frags(s1.frags, fv) =~= Seq::<X>::empty());
            assert(gather(st.chunks, fv) + gather_frags(st.frags, fv) =~= gather_contents(
                entries,
                i,
                cv,
            ));
        } else {
            let add = measure(content, token_mode) + HEADER_OVERHEAD + p.len();
            let s1 = if s.used + add > t && s.frags.len() > 0 {
                flush(s)
            } else {
                s
            };
            let f = Fragment { path: p, part: None, data: encode_utf8(content) };
            assert(s1.frags.push(f).drop_last() =~= s1.frags);
            assert(fv(encode_utf8(content)) == cv(content));
            assert(gather(st.chunks, fv) + gather_frags(st.frags, fv) =~= gather_contents(
                entries,
                i,
                cv,
            ));
        }
    }
}

proof fn lemma_pack_gather<X>(
    entries: Seq<(String, String, i32)>,
    t: nat,
    token_mode: bool,
    fv: spec_fn(Seq<u8>) -> Seq<X>,
    cv: spec_fn(Seq<char>) -> Seq<X>,
)
    requires
        t > 0,
        views_agree(token_mode, t, fv, cv),
    ensures
        gather(pack(entries, t, token_mode), fv) == gather_contents(entries, entries.len(), cv),
{
    lemma_run_gather(entries, entries.len(), t, token_mode, fv, cv);
    let st = run(entries, entries.len(), t, token_mode);
    lemma_flush_gather(st, fv);
    assert(gather_frags(flush(st).frags, fv) =~= Seq::<X>::empty());
    assert(gather(flush(st).chunks, fv) + Seq::<X>::empty() =~= gather(flush(st).chunks, fv));
}

/// In byte mode the chunks carry every file's content exactly once and in
/// order: the data of all fragments, chunk after chunk, is the contents of
/// the entries, one after the other.
pub proof fn lemma_chunks_reproduce_contents(entries: Seq<(String, String, i32)>, t: nat)
    requires
        t > 0,
    ensures
        gather(pack(entries, t, false), data_bytes()) == gather_contents(
            entries,
            entries.len(),
            content_bytes(),
        ),
{
    assert forall|c: Seq<char>|
        measure(c, false) >= t implies #[trigger] concat_all(
        part_data(c, t, false).map_values(data_bytes()),
    ) == content_bytes()(c) by {
        assert(part_data(c, t, false).map_values(data_bytes()) =~= pieces(encode_utf8(c), t));
        lemma_concat_pieces(encode_utf8(c), t);
    }
    lemma_pack_gather(entries, t, false, data_bytes(), content_bytes());
}

/// In token mode the chunks carry every file's tokens exactly once and in
/// order: the tokens of all fragments, chunk after chunk, are the tokens of
/// the entries' contents, one after the other (whitespace normalized).
pub proof fn lemma_chunks_reproduce_tokens(entries: Seq<(String, String, i32)>, t: nat)
    requires
        t > 0,
    ensures
        gather(pack(entries, t, true), data_tokens()) == gather_contents(
            entries,
            entries.len(),
            content_tokens(),
        ),
{
    assert forall|c: Seq<char>| #[trigger] data_tokens()(encode_utf8(c)) == content_tokens()(c) by {
        vstd::utf8::encode_utf8_decode_utf8(c);
    }
    assert forall|c: Seq<char>|
        measure(c, true) >= t implies #[trigger] concat_all(
        part_data(c, t, true).map_values(data_tokens()),
    ) == content_tokens()(c) by {
        let ts = tokens(c);
        let ps = pieces(ts, t);
        lemma_tokens_are_words(c);
        lemma_pieces_words(ts, t);
        assert(part_data(c, t, true).map_values(data_tokens()) =~= ps) by {
            assert forall|k: int| 0 <= k < ps.len() implies part_data(c, t, true).map_values(
                data_tokens(),
            )[k] == ps[k] by {
                vstd::utf8::encode_utf8_decode_utf8(join(ps[k]));
                lemma_tokens_join(ps[k]);
            }
        }
        lemma_concat_pieces(ts, t);
    }
    lemma_pack_gather(entries, t, true, data_tokens(), content_tokens());
}

/// Every piece of a sequence of words is a sequence of words.
proof fn lemma_pieces_words(ts: Seq<Seq<char>>, t: nat)
    requires
        all_words(ts),
    ensures
        forall|k: int| 0 <= k < pieces(ts, t).len() ==> all_words(#[trigger] pieces(ts, t)[k]),
    decreases ts.len(),
{
    if ts.len() > 0 && t > 0 && ts.len() > t {
        lemma_pieces_words(ts.skip(t as int), t);
        let ps = pieces(ts, t);
        assert forall|k: int| 0 <= k < ps.len() implies all_words(#[trigger] ps[k]) by {
            if k == 0 {
                assert(ps[0] == ts.take(t as int));
            } else {
                assert(ps[k] == pieces(ts.skip(t as int), t)[k - 1]);
            }
        }
    }
}

} // verus!
