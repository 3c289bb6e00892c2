//! Composing a batch of writes to one file: later regions of the batch see what
//! earlier ones wrote.

use vstd::prelude::*;

use crate::io::written;
use crate::window::{assembly_order_is_irrelevant, by_offset, byte_at, chunk_of_write, compose_chunk,
    covers_pos, of_offset, plan_write, regions_written, size_after, sort_regions, Extent, Region,
    WriteChunk};

verus! {

/// What a batch has made of a file so far.
#[derive(Debug)]
pub struct WriteOverlay {
    /// The chunk size.
    pub class: u64,
    /// The size of the file.
    pub size: u64,
    /// The chunks that were changed, each under its start.
    pub chunks: Vec<Extent>,
}

/// The chunk shows that part of the file; where it is shorter, the file holds
/// zeros.
pub open spec fn fits(e: Extent, file: Seq<u8>, class: u64) -> bool {
    &&& e.1@.len() <= class
    &&& forall|k: int|
        #![trigger file[e.0 + k]]
        0 <= k < class && e.0 + k < file.len() ==> file[e.0 + k] == if k < e.1@.len() {
            e.1@[k]
        } else {
            0u8
        }
    &&& e.1@.len() == 0 || e.0 + e.1@.len() <= file.len()
}

/// A chunk boundary.
pub open spec fn on_boundary(off: u64, class: u64) -> bool {
    exists|m: int| off == #[trigger] (m * class)
}

/// What is held of a chunk, where it was changed.
pub open spec fn held_chunk(chunks: Seq<Extent>, off: u64) -> Option<Seq<u8>>
    decreases chunks.len(),
{
    if chunks.len() == 0 {
        None
    } else if chunks.last().0 == off {
        Some(chunks.last().1@)
    } else {
        held_chunk(chunks.drop_last(), off)
    }
}

/// The old content that a chunk of a write is composed over: what the batch made
/// of it, else what was read.
pub open spec fn old_of(chunks: Seq<Extent>, reads: Seq<Extent>, off: u64) -> Seq<u8> {
    match held_chunk(chunks, off) {
        Some(b) => b,
        None => match held_chunk(reads, off) {
            Some(b) => b,
            None => Seq::empty(),
        },
    }
}

/// The bytes show the old content of a chunk as far as the write needs it.
pub open spec fn old_shown(c: WriteChunk, old: Seq<u8>, file: Seq<u8>) -> bool {
    &&& old.len() <= c.read_len || (c.in_start == c.chunk_off && c.in_end == c.chunk_off
        + c.chunk_len)
    &&& forall|k: int|
        0 <= k < c.read_len ==> #[trigger] file[c.chunk_off + k] == if k < old.len() {
            old[k]
        } else {
            0u8
        }
}

/// A chunk as a write leaves it.
pub open spec fn composed(c: WriteChunk, offset: u64, data: Seq<u8>, old: Seq<u8>) -> Seq<u8> {
    Seq::new(
        c.chunk_len as nat,
        |k: int|
            if c.in_start <= c.chunk_off + k < c.in_end {
                data[c.chunk_off + k - offset]
            } else if k < old.len() {
                old[k]
            } else {
                0u8
            },
    )
}

/// The chunks of a write, in order.
pub open spec fn planned(
    plan: Seq<WriteChunk>,
    class: u64,
    first: int,
    offset: u64,
    end: u64,
    size: u64,
) -> bool {
    &&& forall|i: int|
        0 <= i < plan.len() ==> #[trigger] plan[i] == chunk_of_write(
            class,
            ((first + i) * class) as u64,
            offset,
            end,
            size,
        ) && (first + i) * class + class <= u64::MAX
    &&& (first + plan.len()) * class >= end
    &&& (first + plan.len() - 1) * class < end
}

proof fn lemma_held_at(chunks: Seq<Extent>, j: int)
    requires
        0 <= j < chunks.len(),
        forall|i: int, k: int|
            #![trigger chunks[i], chunks[k]]
            0 <= i < k < chunks.len() ==> chunks[i].0 != chunks[k].0,
    ensures
        held_chunk(chunks, chunks[j].0) == Some(chunks[j].1@),
    decreases chunks.len(),
{
    if j < chunks.len() - 1 {
        let d = chunks.drop_last();
        assert(chunks[j].0 != chunks[chunks.len() - 1].0);
        assert forall|i: int, k: int|
            #![trigger d[i], d[k]]
            0 <= i < k < d.len() implies d[i].0 != d[k].0 by {
            assert(d[i] == chunks[i] && d[k] == chunks[k]);
        }
        lemma_held_at(d, j);
        assert(d[j] == chunks[j]);
    }
}

pub proof fn lemma_held(chunks: Seq<Extent>, off: u64)
    ensures
        match held_chunk(chunks, off) {
            Some(b) => exists|j: int|
                0 <= j < chunks.len() && (#[trigger] chunks[j]).0 == off && chunks[j].1@ == b,
            None => forall|j: int| 0 <= j < chunks.len() ==> (#[trigger] chunks[j]).0 != off,
        },
    decreases chunks.len(),
{
    if chunks.len() > 0 {
        let d = chunks.drop_last();
        let n = chunks.len() - 1;
        assert(chunks[n] == chunks.last());
        if chunks.last().0 != off {
            lemma_held(d, off);
            match held_chunk(d, off) {
                Some(b) => {
                    let j = choose|j: int|
                        0 <= j < d.len() && (#[trigger] d[j]).0 == off && d[j].1@ == b;
                    assert(chunks[j] == d[j]);
                },
                None => {
                    assert forall|j: int| 0 <= j < chunks.len() implies (#[trigger] chunks[j]).0
                        != off by {
                        if j < n {
                            assert(d[j] == chunks[j]);
                        }
                    }
                },
            }
        }
    }
}

pub(crate) fn find_chunk(chunks: &Vec<Extent>, off: u64) -> (r: Option<usize>)
    ensures
        match r {
            Some(at) => at < chunks@.len() && chunks@[at as int].0 == off && held_chunk(
                chunks@,
                off,
            ) == Some(chunks@[at as int].1@),
            None => held_chunk(chunks@, off) is None,
        },
{
    let mut n: usize = chunks.len();
    assert(chunks@.take(n as int) =~= chunks@);
    while n > 0
        invariant
            n <= chunks@.len(),
            held_chunk(chunks@, off) == held_chunk(chunks@.take(n as int), off),
        decreases n,
    {
        let ghost t = chunks@.take(n as int);
        assert(t.drop_last() =~= chunks@.take(n - 1));
        if chunks[n - 1].0 == off {
            return Some(n - 1);
        }
        n = n - 1;
    }
    None
}

/// Put a chunk in place of what was held of it, or behind the others.
fn put_chunk(chunks: &mut Vec<Extent>, off: u64, bytes: Vec<u8>) -> (r: Option<usize>)
    ensures
        match r {
            Some(at) => at < old(chunks)@.len() && old(chunks)@[at as int].0 == off && final(chunks)@ == old(chunks)@.update(at as int, (off, bytes)),
            None => held_chunk(old(chunks)@, off) is None && final(chunks)@ == old(chunks)@.push(
                (off, bytes),
            ),
        },
{
    match find_chunk(chunks, off) {
        Some(at) => {
            chunks.set(at, (off, bytes));
            Some(at)
        },
        None => {
            chunks.push((off, bytes));
            None
        },
    }
}

/// A chunk that was put is held, and so is every one that was.
proof fn lemma_put(a: Seq<Extent>, b: Seq<Extent>, at: Option<usize>, off: u64, v: Vec<u8>)
    requires
        match at {
            Some(at) => at < a.len() && a[at as int].0 == off && b == a.update(
                at as int,
                (off, v),
            ),
            None => b == a.push((off, v)),
        },
    ensures
        held_chunk(b, off) is Some,
        forall|x: u64| held_chunk(a, x) is Some ==> #[trigger] held_chunk(b, x) is Some,
{
    lemma_held(b, off);
    let place = match at {
        Some(at) => at as int,
        None => a.len() as int,
    };
    assert(b[place].0 == off);
    assert forall|x: u64| held_chunk(a, x) is Some implies #[trigger] held_chunk(b, x) is Some by {
        lemma_held(a, x);
        lemma_held(b, x);
        let j = choose|j: int| 0 <= j < a.len() && (#[trigger] a[j]).0 == x;
        assert(b[j].0 == x);
    }
}

proof fn lemma_plan_chunk(c: WriteChunk, class: u64, m: int, offset: u64, end: u64, size: u64)
    requires
        class > 0,
        offset < end,
        m >= 0,
        m * class + class <= u64::MAX,
        c == chunk_of_write(class, (m * class) as u64, offset, end, size),
        m * class < end,
        m * class + class > offset,
    ensures
        c.chunk_off == m * class,
        c.chunk_len <= class,
        c.chunk_off + c.chunk_len <= u64::MAX,
        c.in_start >= offset,
        c.in_end <= end,
{
    assert(m * class >= 0) by (nonlinear_arith)
        requires
            m >= 0,
    ;
}

proof fn lemma_start(was: WriteOverlay, file: Seq<u8>, offset: u64, data: Seq<u8>, first: int)
    requires
        was.shows(file),
    ensures
        was.part_way(was, file, offset, data, first, 0),
{
    assert forall|j: int| 0 <= j < was.chunks@.len() implies held_chunk(
        was.chunks@,
        (#[trigger] was.chunks@[j]).0,
    ) == Some(was.chunks@[j].1@) by {
        lemma_held_at(was.chunks@, j);
    }
}

proof fn lemma_composed_fits(
    c: WriteChunk,
    file: Seq<u8>,
    class: u64,
    m: int,
    offset: u64,
    data: Seq<u8>,
    old: Seq<u8>,
    e: Extent,
)
    requires
        class > 0,
        data.len() > 0,
        offset + data.len() <= u64::MAX,
        file.len() <= u64::MAX,
        m >= 0,
        m * class + class <= u64::MAX,
        c == chunk_of_write(
            class,
            (m * class) as u64,
            offset,
            (offset + data.len()) as u64,
            file.len() as u64,
        ),
        m * class < offset + data.len(),
        m * class + class > offset,
        old_shown(c, old, file),
        e.0 == c.chunk_off,
        e.1@ == composed(c, offset, data, old),
    ensures
        fits(e, written(file, offset as nat, data), class),
{
    lemma_plan_chunk(c, class, m, offset, (offset + data.len()) as u64, file.len() as u64);
    let after = written(file, offset as nat, data);
    assert forall|k: int| #![trigger after[e.0 + k]] 0 <= k < class && e.0 + k < after.len() implies after[e.0
        + k] == if k < e.1@.len() {
        e.1@[k]
    } else {
        0u8
    } by {
        assert(k < c.chunk_len);
        let pos = e.0 + k;
        if !(c.in_start <= pos < c.in_end) {
            if pos < file.len() {
                assert(k < c.read_len);
                assert(file[c.chunk_off + k] == if k < old.len() { old[k] } else { 0u8 });
            }
        }
    }
}

proof fn lemma_fits_is_shown(e: Extent, file: Seq<u8>, class: u64, c: WriteChunk, offset: u64, end: u64)
    requires
        fits(e, file, class),
        file.len() <= u64::MAX,
        e.0 + class <= u64::MAX,
        offset < end,
        e.0 < end,
        c == chunk_of_write(class, e.0, offset, end, file.len() as u64),
    ensures
        old_shown(c, e.1@, file),
{
    assert forall|k: int| 0 <= k < c.read_len implies #[trigger] file[c.chunk_off + k] == if k
        < e.1@.len() {
        e.1@[k]
    } else {
        0u8
    } by {
        assert(file[e.0 + k] == file[c.chunk_off + k]);
    }
}

proof fn lemma_part_step(
    before: WriteOverlay,
    now: WriteOverlay,
    was: WriteOverlay,
    c: WriteChunk,
    b: Seq<u8>,
    at: Option<usize>,
    file: Seq<u8>,
    offset: u64,
    data: Seq<u8>,
    reads: Seq<Extent>,
    first: int,
    i: int,
)
    requires
        was.shows(file),
        was.reads_shown(offset, data.len(), reads, file),
        before.part_way(was, file, offset, data, first, i),
        was.class > 0,
        data.len() > 0,
        offset + data.len() <= u64::MAX,
        first >= 0,
        i >= 0,
        (first + i) * was.class + was.class <= u64::MAX,
        (first + i) * was.class < offset + data.len(),
        (first + i) * was.class + was.class > offset,
        c == chunk_of_write(
            was.class,
            ((first + i) * was.class) as u64,
            offset,
            (offset + data.len()) as u64,
            was.size,
        ),
        b == composed(c, offset, data, old_of(before.chunks@, reads, c.chunk_off)),
        match at {
            Some(at) => at < before.chunks@.len() && before.chunks@[at as int].0 == c.chunk_off && (
            exists|v: Vec<u8>|
                v@ == b && now.chunks@ == #[trigger] before.chunks@.update(
                    at as int,
                    (c.chunk_off, v),
                )),
            None => held_chunk(before.chunks@, c.chunk_off) is None && (exists|v: Vec<u8>|
                v@ == b && now.chunks@ == #[trigger] before.chunks@.push((c.chunk_off, v))),
        },
    ensures
        now.part_way(was, file, offset, data, first, i + 1),
{
    let m = first + i;
    let off = c.chunk_off;
    let end = (offset + data.len()) as u64;
    let class = was.class;
    let after = written(file, offset as nat, data);
    let bc = before.chunks@;
    let nc = now.chunks@;
    lemma_plan_chunk(c, class, m, offset, end, was.size);
    assert((first + i + 1) * class == m * class + class) by (nonlinear_arith)
        requires
            m == first + i,
    ;
    assert(first * class <= m * class) by (nonlinear_arith)
        requires
            first <= m,
    ;
    assert(on_boundary(off, class)) by {
        assert(off == m * class);
    }
    let old = old_of(bc, reads, off);
    lemma_held(bc, off);
    match held_chunk(bc, off) {
        Some(x) => {
            let j = choose|j: int| 0 <= j < bc.len() && (#[trigger] bc[j]).0 == off && bc[j].1@ == x;
            assert(fits(bc[j], file, class));
            lemma_fits_is_shown(bc[j], file, class, c, offset, end);
        },
        None => {
            if held_chunk(was.chunks@, off) is Some {
                assert(held_chunk(bc, off) is Some);
            }
            assert(old_shown(c, old, file)) by {
                let h = held_chunk(reads, off);
            }
        },
    }
    assert(old_shown(c, old, file));
    let v = match at {
        Some(at) => choose|v: Vec<u8>|
            v@ == b && nc == #[trigger] bc.update(at as int, (c.chunk_off, v)),
        None => choose|v: Vec<u8>| v@ == b && nc == #[trigger] bc.push((c.chunk_off, v)),
    };
    let e = (off, v);
    lemma_composed_fits(c, file, class, m, offset, data, old, e);
    let place = match at {
        Some(at) => at as int,
        None => bc.len() as int,
    };
    assert(nc[place] == e);
    assert forall|j: int| 0 <= j < nc.len() && j != place implies #[trigger] nc[j] == bc[j] && bc[j].0
        != off by {
        match at {
            Some(a) => {
                assert(bc[j].0 != bc[a as int].0);
            },
            None => {},
        }
    }
    assert forall|j: int| 0 <= j < nc.len() implies ({
        let e = #[trigger] nc[j];
        &&& on_boundary(e.0, was.class)
        &&& if e.0 >= first * was.class && e.0 < (first + (i + 1)) * was.class {
            fits(e, after, was.class)
        } else {
            fits(e, file, was.class) && held_chunk(was.chunks@, e.0) == Some(e.1@)
        }
    }) by {
        if j != place {
            let q = choose|q: int| nc[j].0 == #[trigger] (q * class);
            if q * class >= m * class && q * class < m * class + class {
                assert(q == m) by (nonlinear_arith)
                    requires
                        q * class >= m * class,
                        q * class < m * class + class,
                        class > 0,
                ;
            }
        }
    }
    assert forall|a: int, d: int|
        #![trigger nc[a], nc[d]]
        0 <= a < d < nc.len() implies nc[a].0 != nc[d].0 by {
        if a != place && d != place {
            assert(bc[a].0 != bc[d].0);
        }
    }
    assert forall|x: u64| held_chunk(was.chunks@, x) is Some implies #[trigger] held_chunk(
        nc,
        x,
    ) is Some by {
        lemma_held(nc, x);
        lemma_held(bc, x);
        if held_chunk(nc, x) is None {
            assert(held_chunk(bc, x) is Some);
            let j = choose|j: int| 0 <= j < bc.len() && (#[trigger] bc[j]).0 == x;
            assert(nc[j].0 == x);
        }
    }
}

proof fn lemma_part_done(
    now: WriteOverlay,
    was: WriteOverlay,
    file: Seq<u8>,
    offset: u64,
    data: Seq<u8>,
    first: int,
    n: int,
)
    requires
        was.shows(file),
        was.class > 0,
        data.len() > 0,
        offset + data.len() <= u64::MAX,
        now.class == was.class,
        now.size == size_after(was.size, (offset + data.len()) as u64),
        now.part_way(was, file, offset, data, first, n),
        first * was.class <= offset,
        (first + n) * was.class >= offset + data.len(),
    ensures
        now.shows(written(file, offset as nat, data)),
{
    let class = was.class;
    let after = written(file, offset as nat, data);
    assert forall|j: int| 0 <= j < now.chunks@.len() implies fits(
        #[trigger] now.chunks@[j],
        after,
        class,
    ) by {
        let e = now.chunks@[j];
        if !(e.0 >= first * class && e.0 < (first + n) * class) {
            let q = choose|q: int| e.0 == #[trigger] (q * class);
            if e.0 < first * class {
                assert(q * class + class <= first * class) by (nonlinear_arith)
                    requires
                        q * class < first * class,
                        class > 0,
                ;
            }
            assert forall|k: int|
                #![trigger after[e.0 + k]]
                0 <= k < class && e.0 + k < after.len() implies after[e.0 + k] == if k < e.1@.len() {
                e.1@[k]
            } else {
                0u8
            } by {
                if e.0 + k < file.len() {
                    assert(file[e.0 + k] == if k < e.1@.len() { e.1@[k] } else { 0u8 });
                }
            }
        }
    }
}

impl WriteOverlay {
    /// The overlay shows the file: its size, and each changed chunk.
    pub open spec fn shows(&self, file: Seq<u8>) -> bool {
        &&& self.class > 0
        &&& file.len() == self.size
        &&& forall|i: int|
            0 <= i < self.chunks@.len() ==> fits(#[trigger] self.chunks@[i], file, self.class)
                && on_boundary(self.chunks@[i].0, self.class)
        &&& forall|i: int, j: int|
            #![trigger self.chunks@[i], self.chunks@[j]]
            0 <= i < j < self.chunks@.len() ==> self.chunks@[i].0 != self.chunks@[j].0
    }

    /// What was read shows the old content of every chunk that the write changes in
    /// part and that the batch has not changed yet.
    pub open spec fn reads_shown(
        &self,
        offset: u64,
        len: nat,
        reads: Seq<Extent>,
        file: Seq<u8>,
    ) -> bool {
        forall|off: u64|
            #![trigger held_chunk(reads, off)]
            held_chunk(self.chunks@, off) is None && on_boundary(off, self.class) && off < offset
                + len && offset < off + self.class ==> old_shown(
                chunk_of_write(self.class, off, offset, (offset + len) as u64, self.size),
                match held_chunk(reads, off) {
                    Some(b) => b,
                    None => Seq::empty(),
                },
                file,
            )
    }

    /// A batch on a file of the given size, of which nothing was changed.
    pub fn new(class: u64, size: u64) -> (r: WriteOverlay)
        requires
            class > 0,
        ensures
            r.class == class,
            r.size == size,
            r.chunks@.len() == 0,
            forall|file: Seq<u8>| #[trigger] r.shows(file) <==> file.len() == size,
    {
        WriteOverlay { class, size, chunks: Vec::new() }
    }

    /// Of the first `n` chunks of a write from `offset` to `end`, those whose old content
    /// is needed and not held: where each starts, and how much of it.
    pub open spec fn needs(&self, offset: u64, end: u64, n: nat) -> Seq<(u64, u64)>
        decreases n,
    {
        if n == 0 {
            Seq::empty()
        } else {
            let rest = self.needs(offset, end, (n - 1) as nat);
            let c = chunk_of_write(
                self.class,
                ((offset / self.class + n - 1) * self.class) as u64,
                offset,
                end,
                self.size,
            );
            if c.read_len > 0 && held_chunk(self.chunks@, c.chunk_off) is None {
                rest.push((c.chunk_off, c.read_len))
            } else {
                rest
            }
        }
    }

    /// The chunks whose old content a write of `len` bytes at `offset` needs and
    /// that the batch does not hold: where each starts, and how much of it.
    pub fn needed(&self, offset: u64, len: u64) -> (r: Option<Vec<(u64, u64)>>)
        requires
            self.class > 0,
            len > 0,
        ensures
            r is None ==> offset + len + self.class > u64::MAX + 1,
            r matches Some(v) ==> {
                let end = (offset + len) as u64;
                &&& offset + len <= u64::MAX
                &&& v@ == self.needs(
                    offset,
                    end,
                    ((end + self.class - 1) / (self.class as int) - offset / self.class) as nat,
                )
            },
    {
        let plan = match plan_write(self.class, offset, len, self.size) {
            Some(p) => p.0,
            None => {
                return None;
            },
        };
        let mut out: Vec<(u64, u64)> = Vec::new();
        let mut i: usize = 0;
        let ghost first = (offset / self.class) as int;
        let ghost end = (offset + len) as u64;
        assert(out@ =~= self.needs(offset, end, 0));
        while i < plan.len()
            invariant
                i <= plan@.len(),
                first == offset / self.class,
                end == offset + len,
                forall|i: int|
                    0 <= i < plan@.len() ==> #[trigger] plan@[i] == chunk_of_write(
                        self.class,
                        ((first + i) * self.class) as u64,
                        offset,
                        end,
                        self.size,
                    ) && (first + i) * self.class + self.class <= u64::MAX,
                out@ == self.needs(offset, end, i as nat),
            decreases plan@.len() - i,
        {
            let c = plan[i];
            if c.read_len > 0 {
                match find_chunk(&self.chunks, c.chunk_off) {
                    Some(_) => {},
                    None => {
                        out.push((c.chunk_off, c.read_len));
                    },
                }
            }
            i += 1;
        }
        Some(out)
    }

    /// Write a region: every chunk it touches is composed over its old content, which
    /// is what the batch made of it, or what was read.
    ///
    /// Gives the starts of the chunks, or nothing where a chunk would lie beyond the
    /// reach of a position.
    pub fn apply(&mut self, offset: u64, data: &[u8], reads: &Vec<Extent>) -> (r: Option<Vec<u64>>)
        requires
            old(self).class > 0,
            data@.len() > 0,
            old(self).class <= usize::MAX,
        ensures
            match r {
                Some(v) => {
                    &&& offset + data@.len() <= u64::MAX
                    &&& final(self).class == old(self).class
                    &&& final(self).size == size_after(
                        old(self).size,
                        (offset + data@.len()) as u64,
                    )
                    &&& forall|i: int|
                        0 <= i < v@.len() ==> #[trigger] v@[i] == (offset / old(self).class + i)
                            * old(self).class && held_chunk(final(self).chunks@, v@[i]) is Some
                    &&& (offset / old(self).class + v@.len()) * old(self).class >= offset
                        + data@.len()
                    &&& v@.len() == (offset + data@.len() + old(self).class - 1) / (old(
                        self,
                    ).class as int) - offset / old(self).class
                    &&& forall|x: u64|
                        held_chunk(old(self).chunks@, x) is Some ==> #[trigger] held_chunk(
                            final(self).chunks@,
                            x,
                        ) is Some
                    &&& forall|file: Seq<u8>|
                        #![trigger old(self).shows(file)]
                        old(self).shows(file) && old(self).reads_shown(
                            offset,
                            data@.len(),
                            reads@,
                            file,
                        ) ==> final(self).shows(written(file, offset as nat, data@))
                },
                None => *final(self) == *old(self) && offset + data@.len() + old(self).class
                    > u64::MAX + 1,
            },
    {
        let ghost was = *self;
        let plan = match plan_write(self.class, offset, data.len() as u64, self.size) {
            Some(p) => p,
            None => {
                return None;
            },
        };
        let ghost first = (offset / self.class) as int;
        let ghost end = (offset + data@.len()) as u64;
        let mut starts: Vec<u64> = Vec::new();
        let mut i: usize = 0;
        proof {
            assert forall|file: Seq<u8>| #[trigger] was.shows(file) implies self.part_way(
                was,
                file,
                offset,
                data@,
                first,
                0,
            ) by {
                lemma_start(was, file, offset, data@, first);
            }
            assert(first * was.class <= offset && offset < first * was.class + was.class)
                by (nonlinear_arith)
                requires
                    first == offset / was.class,
                    was.class > 0,
            ;
        }
        while i < plan.0.len()
            invariant
                i <= plan.0@.len(),
                was == *old(self),
                self.class == was.class,
                self.size == was.size,
                was.class > 0,
                was.class <= usize::MAX,
                data@.len() > 0,
                offset + data@.len() <= u64::MAX,
                end == offset + data@.len(),
                first == offset / was.class,
                planned(plan.0@, was.class, first, offset, end, was.size),
                first * was.class <= offset,
                offset < first * was.class + was.class,
                starts@.len() == i,
                forall|x: u64|
                    held_chunk(was.chunks@, x) is Some ==> #[trigger] held_chunk(
                        self.chunks@,
                        x,
                    ) is Some,
                forall|j: int|
                    0 <= j < i ==> #[trigger] starts@[j] == (first + j) * was.class && held_chunk(
                        self.chunks@,
                        starts@[j],
                    ) is Some,
                forall|file: Seq<u8>|
                    #![trigger was.shows(file)]
                    was.shows(file) && was.reads_shown(offset, data@.len(), reads@, file)
                        ==> self.part_way(was, file, offset, data@, first, i as int),
            decreases plan.0@.len() - i,
        {
            let c = plan.0[i];
            proof {
                assert((first + i) * was.class + was.class > offset) by (nonlinear_arith)
                    requires
                        first * was.class + was.class > offset,
                        i >= 0,
                        was.class > 0,
                ;
                assert((first + i) * was.class < end) by (nonlinear_arith)
                    requires
                        (first + plan.0@.len() - 1) * was.class < end,
                        i < plan.0@.len(),
                        was.class > 0,
                ;
                lemma_plan_chunk(c, was.class, first + i, offset, end, was.size);
            }
            let empty: Vec<u8> = Vec::new();
            let ghost before = *self;
            let bytes = match find_chunk(&self.chunks, c.chunk_off) {
                Some(at) => compose_chunk(&c, offset, data, self.chunks[at].1.as_slice()),
                None => match find_chunk(reads, c.chunk_off) {
                    Some(at) => compose_chunk(&c, offset, data, reads[at].1.as_slice()),
                    None => compose_chunk(&c, offset, data, empty.as_slice()),
                },
            };
            let ghost b = bytes@;
            let ghost put = bytes;
            let at = put_chunk(&mut self.chunks, c.chunk_off, bytes);
            starts.push(c.chunk_off);
            proof {
                lemma_put(before.chunks@, self.chunks@, at, c.chunk_off, put);
                assert(b == composed(c, offset, data@, old_of(before.chunks@, reads@, c.chunk_off)));
                assert forall|file: Seq<u8>|
                    #![trigger was.shows(file)]
                    was.shows(file) && was.reads_shown(
                        offset,
                        data@.len(),
                        reads@,
                        file,
                    ) implies self.part_way(was, file, offset, data@, first, i + 1) by {
                    lemma_part_step(before, *self, was, c, b, at, file, offset, data@, reads@, first, i as int);
                }
            }
            i += 1;
        }
        self.size = plan.1;
        proof {
            assert forall|file: Seq<u8>|
                #![trigger was.shows(file)]
                was.shows(file) && was.reads_shown(
                    offset,
                    data@.len(),
                    reads@,
                    file,
                ) implies self.shows(written(file, offset as nat, data@)) by {
                lemma_part_done(*self, was, file, offset, data@, first, i as int);
            }
        }
        Some(starts)
    }

    /// Part of the way through a write: the chunks that were composed show the file
    /// after it, the others the file before.
    pub open spec fn part_way(
        &self,
        was: WriteOverlay,
        file: Seq<u8>,
        offset: u64,
        data: Seq<u8>,
        first: int,
        done: int,
    ) -> bool {
        let after = written(file, offset as nat, data);
        &&& forall|j: int|
            0 <= j < self.chunks@.len() ==> {
                let e = #[trigger] self.chunks@[j];
                &&& on_boundary(e.0, was.class)
                &&& if e.0 >= first * was.class && e.0 < (first + done) * was.class {
                    fits(e, after, was.class)
                } else {
                    fits(e, file, was.class) && held_chunk(was.chunks@, e.0) == Some(e.1@)
                }
            }
        &&& forall|i: int, j: int|
            #![trigger self.chunks@[i], self.chunks@[j]]
            0 <= i < j < self.chunks@.len() ==> self.chunks@[i].0 != self.chunks@[j].0
        &&& forall|off: u64|
            held_chunk(was.chunks@, off) is Some ==> #[trigger] held_chunk(self.chunks@, off) is Some
    }
}

/// What a batch wrote is read back: assembling its chunks gives the file, byte for
/// byte, wherever a chunk was changed.
pub proof fn written_bytes_read_back(o: WriteOverlay, file: Seq<u8>, j: int, pos: int)
    requires
        o.shows(file),
        0 <= j < o.chunks@.len(),
        o.chunks@[j].0 <= pos < o.chunks@[j].0 + o.class,
        pos < file.len(),
    ensures
        byte_at(o.chunks@, pos) == file[pos],
{
    let es = o.chunks@;
    let class = o.class;
    assert forall|a: int, b: int, q: int|
        #![trigger covers_pos(es[a], q), covers_pos(es[b], q)]
        0 <= a < es.len() && 0 <= b < es.len() && covers_pos(es[a], q) && covers_pos(es[b], q) implies a
        == b by {
        lemma_same_chunk(es[a].0, es[b].0, class, q);
        if a < b {
            assert(es[a].0 != es[b].0);
        } else if b < a {
            assert(es[b].0 != es[a].0);
        }
    }
    assert(fits(es[j], file, class));
    let k = pos - es[j].0;
    assert(file[es[j].0 + k] == file[pos]);
    assembly_order_is_irrelevant(es, pos, j);
    if !covers_pos(es[j], pos) {
        assert forall|i: int| 0 <= i < es.len() implies !#[trigger] covers_pos(es[i], pos) by {
            if covers_pos(es[i], pos) {
                lemma_same_chunk(es[i].0, es[j].0, class, pos);
                if i < j {
                    assert(es[i].0 != es[j].0);
                } else if j < i {
                    assert(es[j].0 != es[i].0);
                }
            }
        }
    }
}

/// Chunks on boundaries that hold one position are the same.
proof fn lemma_same_chunk(a: u64, b: u64, class: u64, pos: int)
    requires
        on_boundary(a, class),
        on_boundary(b, class),
        class > 0,
        a <= pos < a + class,
        b <= pos < b + class,
    ensures
        a == b,
{
    let m = choose|m: int| a == #[trigger] (m * class);
    let n = choose|n: int| b == #[trigger] (n * class);
    assert(m == n) by (nonlinear_arith)
        requires
            m * class <= pos < m * class + class,
            n * class <= pos < n * class + class,
            class > 0,
    ;
}

// ---------------------------------------------------------------------------
// Batches
// ---------------------------------------------------------------------------

/// Every stored chunk that the batch may touch was read.
pub open spec fn stored_read(reads: Seq<Extent>, file: Seq<u8>, class: u64) -> bool {
    forall|off: u64|
        #![trigger held_chunk(reads, off)]
        on_boundary(off, class) && off < file.len() ==> (held_chunk(reads, off) matches Some(b)
            && b.len() <= class && off + b.len() <= file.len() && forall|k: int|
            #![trigger file[off + k]]
            0 <= k < class && off + k < file.len() ==> file[off + k] == if k < b.len() {
                b[k]
            } else {
                0u8
            })
}

/// Where the batch has not changed a chunk, the file is what it was, and zeros where it
/// has grown.
pub open spec fn rest_kept(o: WriteOverlay, stored: Seq<u8>, file: Seq<u8>) -> bool {
    &&& stored.len() <= file.len()
    &&& forall|off: u64, k: int|
        #![trigger held_chunk(o.chunks@, off), file[off + k]]
        on_boundary(off, o.class) && held_chunk(o.chunks@, off) is None && 0 <= k < o.class && off
            + k < file.len() ==> file[off + k] == if off + k < stored.len() {
            stored[off + k]
        } else {
            0u8
        }
}

proof fn lemma_reads_shown(
    o: WriteOverlay,
    stored: Seq<u8>,
    file: Seq<u8>,
    offset: u64,
    len: nat,
    reads: Seq<Extent>,
)
    requires
        o.shows(file),
        o.class > 0,
        offset + len + o.class <= u64::MAX + 1,
        len > 0,
        stored_read(reads, stored, o.class),
        forall|off: u64|
            on_boundary(off, o.class) && off >= stored.len() ==> #[trigger] held_chunk(
                reads,
                off,
            ) is None,
        rest_kept(o, stored, file),
    ensures
        o.reads_shown(offset, len, reads, file),
{
    assert forall|off: u64|
        #![trigger held_chunk(reads, off)]
        held_chunk(o.chunks@, off) is None && on_boundary(off, o.class) && off < offset + len
            && offset < off + o.class implies old_shown(
        chunk_of_write(o.class, off, offset, (offset + len) as u64, o.size),
        match held_chunk(reads, off) {
            Some(b) => b,
            None => Seq::empty(),
        },
        file,
    ) by {
        let c = chunk_of_write(o.class, off, offset, (offset + len) as u64, o.size);
        let b = match held_chunk(reads, off) {
            Some(b) => b,
            None => Seq::<u8>::empty(),
        };
        assert forall|k: int| 0 <= k < c.read_len implies #[trigger] file[c.chunk_off + k] == if k
            < b.len() {
            b[k]
        } else {
            0u8
        } by {
            let n = held_chunk(o.chunks@, off);
            assert(file[off + k] == if off + k < stored.len() {
                stored[off + k]
            } else {
                0u8
            });
            if off < stored.len() {
                if off + k < stored.len() {
                    assert(stored[off + k] == if k < b.len() {
                        b[k]
                    } else {
                        0u8
                    });
                }
            }
        }
    }
}

proof fn lemma_rest_kept(
    a: WriteOverlay,
    b: WriteOverlay,
    stored: Seq<u8>,
    file: Seq<u8>,
    offset: u64,
    data: Seq<u8>,
    starts: Seq<u64>,
)
    requires
        a.class > 0,
        b.class == a.class,
        rest_kept(a, stored, file),
        forall|i: int|
            0 <= i < starts.len() ==> #[trigger] starts[i] == (offset / a.class + i) * a.class
                && held_chunk(b.chunks@, starts[i]) is Some,
        (offset / a.class + starts.len()) * a.class >= offset + data.len(),
        forall|x: u64|
            held_chunk(a.chunks@, x) is Some ==> #[trigger] held_chunk(b.chunks@, x) is Some,
    ensures
        rest_kept(b, stored, written(file, offset as nat, data)),
{
    let class = a.class;
    let after = written(file, offset as nat, data);
    let first = (offset / class) as int;
    assert forall|off: u64, k: int|
        #![trigger held_chunk(b.chunks@, off), after[off + k]]
        on_boundary(off, class) && held_chunk(b.chunks@, off) is None && 0 <= k < class && off + k
            < after.len() implies after[off + k] == if off + k < stored.len() {
        stored[off + k]
    } else {
        0u8
    } by {
        let pos = off + k;
        let had = held_chunk(a.chunks@, off);
        if offset <= pos < offset + data.len() {
            let m = choose|m: int| off == #[trigger] (m * class);
            assert(first <= m) by (nonlinear_arith)
                requires
                    first == offset / class,
                    offset <= pos,
                    pos < m * class + class,
                    class > 0,
            ;
            assert(m < first + starts.len()) by (nonlinear_arith)
                requires
                    m * class <= pos,
                    pos < offset + data.len(),
                    (first + starts.len()) * class >= offset + data.len(),
                    class > 0,
            ;
            assert(starts[m - first] == off);
        } else if pos < file.len() {
            assert(after[pos] == file[pos]);
        }
    }
}

impl WriteOverlay {
    /// Write the regions of a batch in the order of their offsets, over one another.
    /// `reads` holds the stored chunks that they touch.
    ///
    /// Gives false, with the regions before it written, where a region reaches beyond the
    /// last position.
    pub fn write_region_batch(&mut self, writes: Vec<Region>, reads: &Vec<Extent>) -> (r: bool)
        requires
            old(self).class > 0,
            old(self).class <= usize::MAX,
            old(self).chunks@.len() == 0,
        ensures
            final(self).class == old(self).class,
            exists|sorted: Seq<Region>| #[trigger]
                batch_order(writes@, sorted) && (!r ==> overlong(sorted, old(self).class)) && (r
                    ==> forall|stored: Seq<u8>|
                    #![trigger old(self).shows(stored)]
                    old(self).shows(stored) && stored_read(reads@, stored, old(self).class) && (
                    forall|off: u64|
                        on_boundary(off, old(self).class) && off >= stored.len()
                            ==> #[trigger] held_chunk(reads@, off) is None) ==> final(self).shows(
                        regions_written(stored, sorted),
                    )),
    {
        let sorted = sort_regions(writes);
        let ghost was = *self;
        let ghost s = sorted@;
        proof {
            assert(batch_order(writes@, s));
            assert(s.take(0) =~= Seq::empty());
        }
        let mut i: usize = 0;
        while i < sorted.len()
            invariant
                i <= s.len(),
                s == sorted@,
                self.class == was.class,
                was == *old(self),
                was.class > 0,
                was.class <= usize::MAX,
                batch_order(writes@, s),
                forall|stored: Seq<u8>|
                    #![trigger was.shows(stored)]
                    was.shows(stored) && stored_read(reads@, stored, was.class) && (forall|off: u64|
                        on_boundary(off, was.class) && off >= stored.len()
                            ==> #[trigger] held_chunk(reads@, off) is None) ==> self.shows(
                        regions_written(stored, s.take(i as int)),
                    ) && rest_kept(*self, stored, regions_written(stored, s.take(i as int))),
            decreases s.len() - i,
        {
            let ghost before = *self;
            let ghost t = s.take(i + 1);
            proof {
                assert(t.drop_last() =~= s.take(i as int));
                assert(t.last() == s[i as int]);
            }
            if sorted[i].1.len() > 0 {
                let offset: u64 = sorted[i].0;
                let len: u64 = sorted[i].1.len() as u64;
                if len > u64::MAX - offset || self.class - 1 > u64::MAX - offset - len {
                    assert(s[i as int].0 + s[i as int].1@.len() + was.class > u64::MAX + 1);
                    assert(overlong(s, was.class));
                    return false;
                }
                match self.apply(offset, sorted[i].1.as_slice(), reads) {
                    Some(starts) => {
                        proof {
                            let data = s[i as int].1@;
                            assert forall|stored: Seq<u8>|
                                #![trigger was.shows(stored)]
                                was.shows(stored) && stored_read(reads@, stored, was.class) && (
                                forall|off: u64|
                                    on_boundary(off, was.class) && off >= stored.len()
                                        ==> #[trigger] held_chunk(reads@, off) is None) implies self.shows(
                                regions_written(stored, t),
                            ) && rest_kept(*self, stored, regions_written(stored, t)) by {
                                let file = regions_written(stored, s.take(i as int));
                                assert(before.shows(file));
                                lemma_reads_shown(
                                    before,
                                    stored,
                                    file,
                                    offset,
                                    data.len(),
                                    reads@,
                                );
                                lemma_rest_kept(
                                    before,
                                    *self,
                                    stored,
                                    file,
                                    offset,
                                    data,
                                    starts@,
                                );
                            }
                        }
                    },
                    None => {
                        return false;
                    },
                }
            }
            i += 1;
        }
        assert(s.take(i as int) =~= s);
        true
    }
}

/// Some region reaches beyond the last position.
pub open spec fn overlong(rs: Seq<Region>, class: u64) -> bool {
    exists|i: int| 0 <= i < rs.len() && (#[trigger] rs[i]).0 + rs[i].1@.len() + class > u64::MAX
        + 1
}

/// The regions in the order of their offsets, those of one offset as they came.
pub open spec fn batch_order(writes: Seq<Region>, sorted: Seq<Region>) -> bool {
    &&& by_offset(sorted)
    &&& forall|o: u64| #[trigger] of_offset(sorted, o) == of_offset(writes, o)
}

} // verus!
