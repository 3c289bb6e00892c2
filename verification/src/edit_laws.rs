//! Laws of edits of a file's bytes: what a read gives, what a hole punch and a run of writes
//! leave, position by position.

use vstd::prelude::*;

use crate::io::written;
use crate::window::{clipped, punch_of, regions_written, size_after, trim_at, Punch, Region};

verus! {

/// A read gives a position exactly where it asks for it and the file has it.
pub proof fn read_gives_what_is_there(size: u64, offset: u64, len: u64, pos: int)
    ensures
        offset <= pos < offset + clipped(size, offset, len) <==> offset <= pos < offset + len && pos
            < size,
{
}

/// What stays of an extent that is trimmed ends where the file does; an extent is trimmed
/// exactly where it starts before the end of the file and reaches beyond it.
pub proof fn trim_ends_at_the_end(start: u64, len: u64, size: u64)
    ensures
        trim_at(start, len, size) is Some <==> start < size && start + len > size,
        trim_at(start, len, size) matches Some(k) ==> start + k == size && k < len,
{
}

/// The file after a punch.
pub open spec fn punched(file: Seq<u8>, p: Punch) -> Seq<u8> {
    match p {
        Punch::Truncate { size } => Seq::new(
            size as nat,
            |i: int|
                if i < file.len() {
                    file[i]
                } else {
                    0u8
                },
        ),
        Punch::Zero { start, len } => Seq::new(
            file.len(),
            |i: int|
                if start <= i < start + len {
                    0u8
                } else {
                    file[i]
                },
        ),
        Punch::Nothing => file,
    }
}

/// A punch leaves nothing in its range and everything before and behind it. Where the size is
/// to be kept the file is as long as before; where not, and the range reaches the end of the
/// file, the file ends where the range starts.
pub proof fn punch_clears_its_range(
    file: Seq<u8>,
    start: u64,
    end: u64,
    keep_size: bool,
    pos: int,
)
    requires
        file.len() <= u64::MAX,
        start <= end,
        start <= file.len(),
        0 <= pos,
    ensures
        ({
            let f = punched(file, punch_of(file.len() as u64, start, end, keep_size));
            &&& f.len() == if !keep_size && end >= file.len() {
                start as nat
            } else {
                file.len()
            }
            &&& start <= pos < end && pos < f.len() ==> f[pos] == 0
            &&& (pos < start || pos >= end) && pos < f.len() ==> f[pos] == file[pos]
            &&& keep_size ==> f.len() == file.len()
        }),
{
}

/// A write makes a file as long as it reaches, and never shorter.
pub proof fn size_grows_to_the_end(file: Seq<u8>, offset: u64, data: Seq<u8>)
    requires
        offset + data.len() <= u64::MAX,
        file.len() <= u64::MAX,
        data.len() > 0,
    ensures
        size_after(file.len() as u64, (offset + data.len()) as u64) == written(
            file,
            offset as nat,
            data,
        ).len(),
        size_after(file.len() as u64, (offset + data.len()) as u64) >= file.len(),
{
}

/// The region holds the position.
pub open spec fn holds_pos(r: Region, pos: int) -> bool {
    r.0 <= pos < r.0 + r.1@.len()
}

/// After a run of writes a position shows the byte of the last of them that holds it, else
/// what the file had there, else zero; the file reaches as far as it did and as the farthest
/// of them does.
#[verifier::rlimit(40)]
#[verifier::spinoff_prover]
pub proof fn last_write_shows(file: Seq<u8>, rs: Seq<Region>, pos: int, i: int)
    requires
        0 <= pos,
    ensures
        ({
            let f = regions_written(file, rs);
            &&& f.len() >= file.len()
            &&& 0 <= i < rs.len() && holds_pos(rs[i], pos) && (forall|j: int|
                i < j < rs.len() ==> !holds_pos(#[trigger] rs[j], pos)) ==> pos < f.len() && f[pos]
                == rs[i].1@[pos - rs[i].0]
            &&& (forall|j: int| 0 <= j < rs.len() ==> !holds_pos(#[trigger] rs[j], pos)) && pos
                < f.len() ==> f[pos] == if pos < file.len() {
                file[pos]
            } else {
                0u8
            }
        }),
    decreases rs.len(),
{
    if rs.len() > 0 {
        let p = rs.drop_last();
        let last = rs.last();
        let before = regions_written(file, p);
        last_write_shows(file, p, pos, i);
        assert(rs[rs.len() - 1] == last);
        if 0 <= i < rs.len() && holds_pos(rs[i], pos) && (forall|j: int|
            i < j < rs.len() ==> !holds_pos(#[trigger] rs[j], pos)) {
            if i < p.len() {
                assert(p[i] == rs[i]);
                assert(!holds_pos(rs[rs.len() - 1], pos));
                assert forall|j: int| i < j < p.len() implies !holds_pos(#[trigger] p[j], pos) by {
                    assert(p[j] == rs[j]);
                }
            }
        }
        if forall|j: int| 0 <= j < rs.len() ==> !holds_pos(#[trigger] rs[j], pos) {
            assert(!holds_pos(rs[rs.len() - 1], pos));
            assert forall|j: int| 0 <= j < p.len() implies !holds_pos(#[trigger] p[j], pos) by {
                assert(p[j] == rs[j]);
            }
        }
    }
}

} // verus!
