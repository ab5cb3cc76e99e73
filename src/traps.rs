//! Decoder for the compact, delta-encoded trap dispatch table of the ROM.

use vstd::prelude::*;

verus! {

/// Offset from the start of the ROM of the long that holds the table's offset.
pub const TABLE_OFFSET: usize = 0x22;

/// Load address of the ROM.
pub const ROM_BASE: u32 = 0x400000;

/// Address of the ROM's "unimplemented trap" handler.
pub const UNIMPL: u32 = 0x400768;

/// The big-endian 32-bit value of the four bytes of `mem` from `addr` on.
pub open spec fn be32(mem: Seq<u8>, addr: int) -> int {
    mem[addr] * 0x1000000 + mem[addr + 1] * 0x10000 + mem[addr + 2] * 0x100 + mem[addr + 3]
}

/// Reads a big-endian 32-bit value at `addr`.
pub fn read_long(mem: &[u8], addr: usize) -> (r: u32)
    requires
        addr + 4 <= mem@.len(),
    ensures
        r as int == be32(mem@, addr as int),
{
    let b0 = mem[addr] as u32;
    let b1 = mem[addr + 1] as u32;
    let b2 = mem[addr + 2] as u32;
    let b3 = mem[addr + 3] as u32;
    let r = (b0 << 24) | (b1 << 16) | (b2 << 8) | b3;
    assert(r == b0 * 0x1000000 + b1 * 0x10000 + b2 * 0x100 + b3) by (bit_vector)
        requires
            b0 < 256,
            b1 < 256,
            b2 < 256,
            b3 < 256,
            r == (b0 << 24) | (b1 << 16) | (b2 << 8) | b3,
    ;
    r
}

/// Reads the offset of the trap table from the ROM header.
pub fn get_table_start(mem: &[u8]) -> (r: usize)
    requires
        TABLE_OFFSET + 4 <= mem@.len(),
    ensures
        r as int == be32(mem@, TABLE_OFFSET as int),
{
    read_long(mem, TABLE_OFFSET) as usize
}

/// Where the decoder stands: the offset of the next table entry in the
/// image, and the running absolute address.
#[derive(Clone, Copy, Debug, PartialEq, Eq, Structural)]
pub struct DecodeState {
    pub table: usize,
    pub pointer: u32,
}

/// The outcome of decoding one table entry.
#[derive(Clone, Copy, Debug, PartialEq, Eq, Structural)]
pub enum Step {
    /// An entry was decoded: the state after it, and the address it gives.
    Entry(DecodeState, u32),
    /// The terminator was read: the state just past it.
    End(DecodeState),
}

/// Why a table could not be decoded; each carries the offset of the entry.
#[derive(Clone, Copy, Debug, PartialEq, Eq, Structural)]
pub enum TableError {
    /// The entry runs past the end of the image.
    Truncated(usize),
    /// The entry moves the running address outside the 32-bit range.
    OutOfRange(usize),
}

/// The signed byte displacement of a long-form entry with value `v`
/// (`v < 0x8000`): a word count whose bit `0x4000` marks it negative.
pub open spec fn long_delta(v: int) -> int {
    if v >= 0x4000 {
        2 * v - 0x10000
    } else {
        2 * v
    }
}

/// The state after moving the running address to `p`, with the cursor
/// advanced to `next`, or the range error when `p` is not a 32-bit address.
pub open spec fn moved_to(table: int, next: int, p: int) -> Result<Step, TableError> {
    if 0 <= p <= u32::MAX {
        Ok(Step::Entry(DecodeState { table: next as usize, pointer: p as u32 }, p as u32))
    } else {
        Err(TableError::OutOfRange(table as usize))
    }
}

/// Decoding of the one entry at `s.table`. `80` gives the address of the
/// unimplemented-trap handler. `FF` followed by a big-endian long sets the
/// running address to the ROM's base plus that long. Another byte with the
/// high bit set adds twice its low seven bits. Any other entry is two bytes,
/// big-endian: zero ends the table, another value `v` adds `long_delta(v)`.
/// Each entry but the terminator gives the running address after it.
pub open spec fn step_spec(mem: Seq<u8>, s: DecodeState) -> Result<Step, TableError> {
    let c = s.table as int;
    if c >= mem.len() {
        Err(TableError::Truncated(s.table))
    } else if mem[c] == 0x80 {
        Ok(Step::Entry(DecodeState { table: (c + 1) as usize, pointer: s.pointer }, UNIMPL))
    } else if mem[c] == 0xff {
        if c + 5 > mem.len() {
            Err(TableError::Truncated(s.table))
        } else {
            moved_to(c, c + 5, be32(mem, c + 1) + ROM_BASE)
        }
    } else if mem[c] >= 0x80 {
        moved_to(c, c + 1, s.pointer + 2 * (mem[c] - 0x80))
    } else if c + 2 > mem.len() {
        Err(TableError::Truncated(s.table))
    } else {
        let v = mem[c] * 0x100 + mem[c + 1];
        if v == 0 {
            Ok(Step::End(DecodeState { table: (c + 2) as usize, pointer: s.pointer }))
        } else {
            moved_to(c, c + 2, s.pointer + long_delta(v))
        }
    }
}

/// The addresses of the table from state `s` on, up to its terminator.
/// (The cursor check always holds for an image whose length fits in
/// `usize`: see `lemma_step_advances`.)
pub open spec fn decode_from(mem: Seq<u8>, s: DecodeState) -> Result<Seq<u32>, TableError>
    decreases mem.len() - s.table,
{
    match step_spec(mem, s) {
        Ok(Step::Entry(next, addr)) => {
            if s.table < next.table <= mem.len() {
                match decode_from(mem, next) {
                    Ok(rest) => Ok(seq![addr] + rest),
                    Err(e) => Err(e),
                }
            } else {
                Ok(seq![addr])
            }
        },
        Ok(Step::End(_)) => Ok(Seq::empty()),
        Err(e) => Err(e),
    }
}

/// Each decoded entry moves the cursor forward, and never past the image.
pub proof fn lemma_step_advances(mem: Seq<u8>, s: DecodeState)
    requires
        mem.len() <= usize::MAX,
    ensures
        match step_spec(mem, s) {
            Ok(Step::Entry(next, _)) => s.table < next.table <= mem.len(),
            Ok(Step::End(next)) => s.table < next.table <= mem.len(),
            Err(_) => true,
        },
{
}

/// Decoding stops exactly at the first terminator: what is left to decode
/// from a state is the entry there followed by what is left after it, and
/// nothing once the entry there is the terminator.
pub proof fn lemma_decode_stops_at_terminator(mem: Seq<u8>, s: DecodeState)
    requires
        mem.len() <= usize::MAX,
    ensures
        match step_spec(mem, s) {
            Ok(Step::Entry(next, addr)) => decode_from(mem, s) == match decode_from(mem, next) {
                Ok(rest) => Ok(seq![addr] + rest),
                Err(e) => Err(e),
            },
            Ok(Step::End(_)) => decode_from(mem, s) == Ok::<Seq<u32>, TableError>(Seq::empty()),
            Err(e) => decode_from(mem, s) == Err::<Seq<u32>, TableError>(e),
        },
{
    lemma_step_advances(mem, s);
}

/// Decodes the one entry at `s.table`.
pub fn decode_step(mem: &[u8], s: DecodeState) -> (r: Result<Step, TableError>)
    ensures
        r == step_spec(mem@, s),
{
    let c = s.table;
    if c >= mem.len() {
        return Err(TableError::Truncated(c));
    }
    let b = mem[c];
    if b == 0x80 {
        return Ok(Step::Entry(DecodeState { table: c + 1, pointer: s.pointer }, UNIMPL));
    }
    if b == 0xff {
        if mem.len() - c < 5 {
            return Err(TableError::Truncated(c));
        }
        let p = read_long(mem, c + 1) as u64 + ROM_BASE as u64;
        if p > u32::MAX as u64 {
            return Err(TableError::OutOfRange(c));
        }
        return Ok(Step::Entry(DecodeState { table: c + 5, pointer: p as u32 }, p as u32));
    }
    if b & 0x80 != 0 {
        assert(b & 0x80 != 0 <==> b >= 0x80) by (bit_vector);
        assert(b & 0x7f == b - 0x80) by (bit_vector)
            requires
                b >= 0x80,
        ;
        let p = s.pointer as u64 + 2 * ((b & 0x7f) as u64);
        if p > u32::MAX as u64 {
            return Err(TableError::OutOfRange(c));
        }
        return Ok(Step::Entry(DecodeState { table: c + 1, pointer: p as u32 }, p as u32));
    }
    assert(b & 0x80 == 0 ==> b < 0x80) by (bit_vector);
    if mem.len() - c < 2 {
        return Err(TableError::Truncated(c));
    }
    let lo = mem[c + 1];
    let v: u32 = ((b as u32) << 8) | (lo as u32);
    assert(v == b * 0x100 + lo) by (bit_vector)
        requires
            v == ((b as u32) << 8) | (lo as u32),
    ;
    if v == 0 {
        return Ok(Step::End(DecodeState { table: c + 2, pointer: s.pointer }));
    }
    let mut p: i64 = s.pointer as i64 + 2 * (v as i64);
    if v & 0x4000 != 0 {
        p = p - 0x10000;
    }
    assert(v & 0x4000 != 0 <==> v >= 0x4000) by (bit_vector)
        requires
            v < 0x8000,
    ;
    if p < 0 || p > u32::MAX as i64 {
        return Err(TableError::OutOfRange(c));
    }
    Ok(Step::Entry(DecodeState { table: c + 2, pointer: p as u32 }, p as u32))
}

/// A decoder that walks the trap table of an image one entry at a time.
/// Once it has read the terminator it stays finished.
#[derive(Debug)]
pub struct Decoder<'a> {
    pub mem: &'a [u8],
    pub state: DecodeState,
    pub finished: bool,
}

impl<'a> Decoder<'a> {
    /// A decoder at the start of the image's trap table, as given by the
    /// ROM header, with the running address at the ROM's base.
    pub fn new(mem: &'a [u8]) -> (r: Decoder<'a>)
        requires
            TABLE_OFFSET + 4 <= mem@.len(),
        ensures
            r.mem@ == mem@,
            r.state.table as int == be32(mem@, TABLE_OFFSET as int),
            r.state.pointer == ROM_BASE,
            !r.finished,
    {
        Decoder {
            mem,
            state: DecodeState { table: get_table_start(mem), pointer: ROM_BASE },
            finished: false,
        }
    }

    /// Decodes the next entry: `Ok(Some(address))` for an entry, `Ok(None)`
    /// at the terminator and on every call after it. On a malformed entry
    /// the error is returned and the decoder is left as it was.
    pub fn next(&mut self) -> (r: Result<Option<u32>, TableError>)
        ensures
            final(self).mem == old(self).mem,
            old(self).finished ==> r == Ok::<Option<u32>, TableError>(None) && *final(self)
                == *old(self),
            !old(self).finished ==> match step_spec(old(self).mem@, old(self).state) {
                Ok(Step::Entry(next, addr)) => {
                    &&& r == Ok::<Option<u32>, TableError>(Some(addr))
                    &&& final(self).state == next
                    &&& !final(self).finished
                },
                Ok(Step::End(next)) => {
                    &&& r == Ok::<Option<u32>, TableError>(None)
                    &&& final(self).state == next
                    &&& final(self).finished
                },
                Err(e) => r == Err::<Option<u32>, TableError>(e) && *final(self) == *old(self),
            },
    {
        if self.finished {
            return Ok(None);
        }
        match decode_step(self.mem, self.state) {
            Ok(Step::Entry(next, addr)) => {
                self.state = next;
                Ok(Some(addr))
            },
            Ok(Step::End(next)) => {
                self.state = next;
                self.finished = true;
                Ok(None)
            },
            Err(e) => Err(e),
        }
    }

    /// The offset in the image of the next entry to decode.
    pub fn table(&self) -> (r: usize)
        ensures
            r == self.state.table,
    {
        self.state.table
    }

    /// Whether the terminator has been read.
    pub fn is_finished(&self) -> (r: bool)
        ensures
            r == self.finished,
    {
        self.finished
    }
}

/// Decodes the whole table that starts at `table_start`, with the running
/// address starting at the ROM's base: every address up to the terminator.
pub fn decode(mem: &[u8], table_start: usize) -> (r: Result<Vec<u32>, TableError>)
    ensures
        match decode_from(mem@, DecodeState { table: table_start, pointer: ROM_BASE }) {
            Ok(addrs) => r matches Ok(v) && v@ == addrs,
            Err(e) => r == Err::<Vec<u32>, TableError>(e),
        },
{
    let mut s = DecodeState { table: table_start, pointer: ROM_BASE };
    let ghost start = s;
    let mut out: Vec<u32> = Vec::new();
    assert(mem@.len() == mem.len());
    loop
        invariant
            mem@.len() <= usize::MAX,
            start == (DecodeState { table: table_start, pointer: ROM_BASE }),
            decode_from(mem@, start) == match decode_from(mem@, s) {
                Ok(rest) => Ok(out@ + rest),
                Err(e) => Err(e),
            },
        decreases mem@.len() + 1 - s.table,
    {
        proof {
            lemma_step_advances(mem@, s);
        }
        match decode_step(mem, s) {
            Ok(Step::Entry(next, addr)) => {
                proof {
                    assert forall|rest: Seq<u32>| out@ + (seq![addr] + rest) =~= out@.push(addr) + rest by {}
                }
                out.push(addr);
                s = next;
            },
            Ok(Step::End(_)) => {
                assert(out@ + Seq::<u32>::empty() =~= out@);
                return Ok(out);
            },
            Err(e) => {
                return Err(e);
            },
        }
    }
}

/// The table index of a trap number: toolbox traps (bit `0x0800` set) take
/// the indices below `0x200`, OS traps the ones from `0x200` on.
pub open spec fn trap_index(trap_num: u32) -> int {
    if trap_num & 0x0800 != 0 {
        (trap_num & 0x1ff) as int
    } else {
        (trap_num & 0xff) + 0x200
    }
}

/// The trap number of a table index: `0xA000 + (idx - 0x200)` from `0x200`
/// on, `0xA800 + idx` below it.
pub open spec fn trap_number(idx: int) -> int {
    if idx >= 0x200 {
        0xa000 + idx - 0x200
    } else {
        0xa800 + idx
    }
}

/// The two numberings invert each other on the indices below `0x300` and on
/// the trap numbers `0xA000..=0xA0FF` and `0xA800..=0xA9FF`.
pub proof fn lemma_trap_numbering_round_trip(idx: nat, trap_num: u32)
    ensures
        idx < 0x300 ==> trap_index(trap_number(idx as int) as u32) == idx,
        (0xa000 <= trap_num <= 0xa0ff || 0xa800 <= trap_num <= 0xa9ff) ==> trap_number(
            trap_index(trap_num),
        ) == trap_num,
{
    if idx < 0x300 {
        let t = trap_number(idx as int) as u32;
        if idx >= 0x200 {
            assert(0xa000 <= t <= 0xa0ff ==> t & 0x0800 == 0 && (t & 0xff) + 0x200 == t - 0xa000
                + 0x200) by (bit_vector);
        } else {
            assert(0xa800 <= t <= 0xa9ff ==> t & 0x0800 != 0 && t & 0x1ff == t - 0xa800) by (
            bit_vector);
        }
    }
    assert(0xa000 <= trap_num <= 0xa0ff ==> trap_num & 0x0800 == 0 && (trap_num & 0xff)
        == trap_num - 0xa000) by (bit_vector);
    assert(0xa800 <= trap_num <= 0xa9ff ==> trap_num & 0x0800 != 0 && (trap_num & 0x1ff)
        == trap_num - 0xa800) by (bit_vector);
}

/// An entry `80` gives the address of the unimplemented-trap handler and
/// leaves the running address as it was, whatever the state.
pub proof fn lemma_unimplemented_entry(mem: Seq<u8>, s: DecodeState)
    requires
        s.table < mem.len(),
        mem[s.table as int] == 0x80,
    ensures
        step_spec(mem, s) == Ok::<Step, TableError>(
            Step::Entry(DecodeState { table: (s.table + 1) as usize, pointer: s.pointer }, UNIMPL),
        ),
{
}

/// The table index of a trap number, as `trap_index` says.
pub fn trap_to_idx(trap_num: u32) -> (r: usize)
    ensures
        r == trap_index(trap_num),
{
    if trap_num & 0x0800 != 0 {
        (trap_num & 0x1ff) as usize
    } else {
        assert(trap_num & 0xff <= 0xff) by (bit_vector);
        ((trap_num & 0xff) + 0x200) as usize
    }
}

/// The trap number of a table index, as `trap_number` says.
pub fn idx_to_trap(idx: usize) -> (r: u32)
    requires
        trap_number(idx as int) <= u32::MAX,
    ensures
        r == trap_number(idx as int),
{
    if idx >= 0x200 {
        (0xa000 + (idx - 0x200)) as u32
    } else {
        (0xa800 + idx) as u32
    }
}

} // verus!
