//! Guest module probe for the shared-page fast path.
//!
//! Fast-path eligibility is read from the guest's own module bytes: a memory
//! entry with the shared flag set, the `memory.atomic.notify` opcode sequence
//! (`0xFE 0x00`) somewhere in the code section, and the multithreaded worker
//! entry export. Malformed input never fails: it yields `false` signals, the
//! safe fallback.
use vstd::prelude::*;

verus! {

/// Section id of the code section.
pub const CODE_SECTION: u8 = 10;

/// Section id of the export section.
pub const EXPORT_SECTION: u8 = 7;

/// Section id of the memory section.
pub const MEMORY_SECTION: u8 = 5;

/// The worker entry export name a multithreaded guest module must carry.
pub const WORKER_ENTRY_EXPORT: &'static str = "__selium_guest_worker";

/// The bytes of [`WORKER_ENTRY_EXPORT`].
const WORKER_ENTRY_BYTES: [u8; 21] = [
    0x5f, 0x5f, 0x73, 0x65, 0x6c, 0x69, 0x75, 0x6d, 0x5f, 0x67, 0x75, 0x65, 0x73, 0x74, 0x5f, 0x77,
    0x6f, 0x72, 0x6b, 0x65, 0x72,
];

/// The worker entry export name as bytes.
pub open spec fn worker_entry_name() -> Seq<u8> {
    seq![
        0x5fu8, 0x5f, 0x73, 0x65, 0x6c, 0x69, 0x75, 0x6d, 0x5f, 0x67, 0x75, 0x65, 0x73, 0x74, 0x5f,
        0x77, 0x6f, 0x72, 0x6b, 0x65, 0x72,
    ]
}

/// Probe result: does this module participate in the shared-page fast path?
#[derive(Debug, Clone, Copy, PartialEq, Eq)]
pub struct ModuleProbe {
    /// The module declares at least one shared memory.
    pub shared_memory: bool,
    /// The module's code section contains the `memory.atomic.notify` opcode
    /// sequence (`0xFE 0x00`).
    pub atomic_notify: bool,
    /// The module exports the multithreaded worker entry.
    pub worker_entry: bool,
}

impl ModuleProbe {
    /// True when a guest built from this module is fast-path capable: it
    /// declares shared memory and its code contains atomic notify opcodes.
    pub fn fast_path_capable(&self) -> (r: bool)
        ensures
            r == (self.shared_memory && self.atomic_notify),
    {
        self.shared_memory && self.atomic_notify
    }

    /// True when the module declares the multithreaded worker entry export.
    pub fn multithreaded(&self) -> (r: bool)
        ensures
            r == self.worker_entry,
    {
        self.worker_entry
    }
}

// ---------------------------------------------------------------------------
// The module format, as read by the probe.
// ---------------------------------------------------------------------------
/// Reads an unsigned LEB128 number at `pos` into a `u32` accumulator that
/// already holds `acc` and whose next group lands at bit `shift`. Groups
/// beyond bit 31 are cut off by the 32-bit shift; a sixth group, or running
/// off the end of the bytes, is a failure. Yields the value and the position
/// just past the number.
pub open spec fn leb_from(b: Seq<u8>, pos: int, shift: nat, acc: u32) -> Option<(u32, int)>
    decreases 32 - shift,
{
    if !(0 <= pos < b.len()) || shift >= 32 {
        None
    } else {
        let byte = b[pos];
        let acc2 = acc | (((byte & 0x7f) as u32) << (shift as u32));
        if byte & 0x80 == 0 {
            Some((acc2, pos + 1))
        } else if shift + 7 >= 32 {
            None
        } else {
            leb_from(b, pos + 1, shift + 7, acc2)
        }
    }
}

/// The LEB128 `u32` at `pos`, with the position just past it.
pub open spec fn leb_u32(b: Seq<u8>, pos: int) -> Option<(u32, int)> {
    leb_from(b, pos, 0, 0)
}

/// A LEB128 read ends strictly after where it starts and within the bytes.
pub proof fn lemma_leb_from_advances(b: Seq<u8>, pos: int, shift: nat, acc: u32)
    ensures
        leb_from(b, pos, shift, acc) matches Some((v, p)) ==> pos < p <= b.len(),
    decreases 32 - shift,
{
    if 0 <= pos < b.len() && shift < 32 {
        let byte = b[pos];
        let acc2 = acc | (((byte & 0x7f) as u32) << (shift as u32));
        if byte & 0x80 != 0 && shift + 7 < 32 {
            lemma_leb_from_advances(b, pos + 1, shift + 7, acc2);
        }
    }
}

/// The next section at `pos`: its id, its payload and the position after
/// it; `None` at the end of the module or on a malformed section header.
pub open spec fn section_at(b: Seq<u8>, pos: int) -> Option<(u8, Seq<u8>, int)> {
    if !(0 <= pos < b.len()) {
        None
    } else {
        match leb_u32(b, pos + 1) {
            None => None,
            Some((size, p)) => if p + size > b.len() {
                None
            } else {
                Some((b[pos], b.subrange(p, p + size), p + size))
            },
        }
    }
}

/// The code section signal: the payload holds the bytes `0xFE 0x00` next
/// to each other.
pub open spec fn code_has_notify(payload: Seq<u8>) -> bool {
    exists|i: int| notify_at(payload, i)
}

/// The bytes `0xFE 0x00` start at `i`.
pub open spec fn notify_at(payload: Seq<u8>, i: int) -> bool {
    0 <= i && i + 1 < payload.len() && payload[i] == 0xfe && payload[i + 1] == 0x00
}

/// Scans `remaining` memory entries starting at `pos`: true when an entry
/// with the shared flag (bit 1) is reached before the bytes turn malformed.
pub open spec fn memory_entries_shared(b: Seq<u8>, pos: int, remaining: nat) -> bool
    decreases remaining,
{
    if remaining == 0 || !(0 <= pos < b.len()) {
        false
    } else {
        let flags = b[pos];
        match leb_u32(b, pos + 1) {
            None => false,
            Some((_min, p)) => {
                let after = if flags & 0x01 != 0 {
                    leb_u32(b, p)
                } else {
                    Some((0u32, p))
                };
                match after {
                    None => false,
                    Some((_max, q)) => if flags & 0x02 != 0 {
                        true
                    } else {
                        memory_entries_shared(b, q, (remaining - 1) as nat)
                    },
                }
            },
        }
    }
}

/// The memory section signal.
pub open spec fn memory_has_shared(payload: Seq<u8>) -> bool {
    match leb_u32(payload, 0) {
        None => false,
        Some((count, p)) => memory_entries_shared(payload, p, count as nat),
    }
}

/// Scans `remaining` export entries starting at `pos`: true when an entry
/// named [`worker_entry_name`] is reached before the bytes turn malformed.
pub open spec fn exports_have_worker(b: Seq<u8>, pos: int, remaining: nat) -> bool
    decreases remaining,
{
    if remaining == 0 {
        false
    } else {
        match leb_u32(b, pos) {
            None => false,
            Some((name_len, p)) => if p + name_len > b.len() {
                false
            } else if b.subrange(p, p + name_len) == worker_entry_name() {
                true
            } else {
                match leb_u32(b, p + name_len + 1) {
                    None => false,
                    Some((_index, q)) => exports_have_worker(b, q, (remaining - 1) as nat),
                }
            }
        }
    }
}

/// The export section signal.
pub open spec fn export_has_worker(payload: Seq<u8>) -> bool {
    match leb_u32(payload, 0) {
        None => false,
        Some((count, p)) => exports_have_worker(payload, p, count as nat),
    }
}

/// Folds one section into the probe signals gathered so far.
pub open spec fn fold_section(acc: ModuleProbe, id: u8, payload: Seq<u8>) -> ModuleProbe {
    if id == MEMORY_SECTION {
        ModuleProbe { shared_memory: acc.shared_memory || memory_has_shared(payload), ..acc }
    } else if id == CODE_SECTION {
        ModuleProbe { atomic_notify: acc.atomic_notify || code_has_notify(payload), ..acc }
    } else if id == EXPORT_SECTION {
        ModuleProbe { worker_entry: acc.worker_entry || export_has_worker(payload), ..acc }
    } else {
        acc
    }
}

/// No signal at all: the result for malformed input.
pub open spec fn no_signals() -> ModuleProbe {
    ModuleProbe { shared_memory: false, atomic_notify: false, worker_entry: false }
}

/// The signals of the sections from `pos` to the end of the module, folded
/// into `acc`; no signal at all when a section header before the end is
/// malformed.
pub open spec fn probe_sections(b: Seq<u8>, pos: int, acc: ModuleProbe) -> ModuleProbe
    decreases b.len() - pos,
{
    match section_at(b, pos) {
        None => if pos >= b.len() {
            acc
        } else {
            no_signals()
        },
        Some((id, payload, next)) => if next <= pos {
            no_signals()
        } else {
            probe_sections(b, next, fold_section(acc, id, payload))
        },
    }
}

/// The eight-byte wasm preamble: magic `\0asm` and version 1.
pub open spec fn has_wasm_header(b: Seq<u8>) -> bool {
    &&& b.len() >= 8
    &&& b[0] == 0x00 && b[1] == 0x61 && b[2] == 0x73 && b[3] == 0x6d
    &&& b[4] == 0x01 && b[5] == 0x00 && b[6] == 0x00 && b[7] == 0x00
}

/// The probe result for a whole module: no signal at all unless the module
/// is well formed up to its end.
pub open spec fn probe_spec(b: Seq<u8>) -> ModuleProbe {
    if has_wasm_header(b) {
        probe_sections(b, 8, no_signals())
    } else {
        no_signals()
    }
}

/// Iterates the sections of a wasm module.
pub struct SectionCursor<'a> {
    bytes: &'a [u8],
    pos: usize,
}

impl<'a> SectionCursor<'a> {
    /// The bytes the cursor walks.
    pub closed spec fn spec_bytes(&self) -> Seq<u8> {
        self.bytes@
    }

    /// The cursor's position.
    pub closed spec fn spec_pos(&self) -> int {
        self.pos as int
    }

    /// A cursor over a module, positioned after its preamble; `None` when
    /// the magic header or version is missing.
    pub fn new(bytes: &'a [u8]) -> (r: Option<Self>)
        ensures
            r is Some <==> has_wasm_header(bytes@),
            r matches Some(c) ==> c.spec_bytes() == bytes@ && c.spec_pos() == 8,
    {
        if bytes.len() < 8 || bytes[0] != 0x00 || bytes[1] != 0x61 || bytes[2] != 0x73
            || bytes[3] != 0x6d || bytes[4] != 0x01 || bytes[5] != 0x00 || bytes[6] != 0x00
            || bytes[7] != 0x00 {
            return None;
        }
        Some(SectionCursor { bytes, pos: 8 })
    }

    /// Whether the cursor has reached the end of its bytes.
    pub fn at_end(&self) -> (r: bool)
        ensures
            r == (self.spec_pos() >= self.spec_bytes().len()),
    {
        self.pos >= self.bytes.len()
    }

    /// A cursor over a section payload, at its start.
    fn over(bytes: &'a [u8]) -> (r: Self)
        ensures
            r.spec_bytes() == bytes@,
            r.spec_pos() == 0,
    {
        SectionCursor { bytes, pos: 0 }
    }

    /// Returns the next `(section id, payload)`, or `None` at the end of the
    /// module or on a malformed section header (which ends the scan).
    pub fn next_section(&mut self) -> (r: Option<(u8, &'a [u8])>)
        ensures
            final(self).spec_bytes() == old(self).spec_bytes(),
            match section_at(old(self).spec_bytes(), old(self).spec_pos()) {
                None => r is None,
                Some((id, payload, next)) => r matches Some((rid, rp)) && rid == id && rp@
                    == payload && final(self).spec_pos() == next,
            },
    {
        if self.pos >= self.bytes.len() {
            return None;
        }
        let id = self.bytes[self.pos];
        self.pos = self.pos + 1;
        let size = match self.read_leb_u32() {
            Some(size) => size,
            None => return None,
        };
        let end = match self.pos.checked_add(size as usize) {
            Some(end) => end,
            None => return None,
        };
        if end > self.bytes.len() {
            return None;
        }
        let payload = &self.bytes[self.pos..end];
        self.pos = end;
        Some((id, payload))
    }

    /// Reads a LEB128 `u32` at the cursor.
    pub fn read_leb_u32(&mut self) -> (r: Option<u32>)
        ensures
            final(self).spec_bytes() == old(self).spec_bytes(),
            match leb_u32(old(self).spec_bytes(), old(self).spec_pos()) {
                None => r is None,
                Some((v, p)) => r == Some(v) && final(self).spec_pos() == p,
            },
    {
        let ghost b = self.bytes@;
        let ghost start = self.pos as int;
        let mut result: u32 = 0;
        let mut shift: u32 = 0;
        loop
            invariant
                self.bytes@ == b,
                b == old(self).spec_bytes(),
                start == old(self).spec_pos(),
                shift < 32,
                shift % 7 == 0,
                leb_u32(b, start) == leb_from(b, self.pos as int, shift as nat, result),
            decreases 32 - shift,
        {
            if self.pos >= self.bytes.len() {
                return None;
            }
            let byte = self.bytes[self.pos];
            self.pos = self.pos + 1;
            result = result | ((byte & 0x7f) as u32) << shift;
            if byte & 0x80 == 0 {
                return Some(result);
            }
            if shift + 7 >= 32 {
                return None;
            }
            shift = shift + 7;
        }
    }
}

/// Probes a wasm module's sections for the fast-path signals. Malformed
/// input (a bad preamble or a malformed section header anywhere before the
/// end) yields an all-false result, the safe fallback, rather than an error.
pub fn probe(module: &[u8]) -> (r: ModuleProbe)
    ensures
        r == probe_spec(module@),
{
    let mut probe = ModuleProbe { shared_memory: false, atomic_notify: false, worker_entry: false };
    let mut cursor = match SectionCursor::new(module) {
        Some(cursor) => cursor,
        None => return probe,
    };
    let ghost b = module@;
    loop
        invariant
            cursor.spec_bytes() == b,
            b == module@,
            has_wasm_header(b),
            0 <= cursor.spec_pos(),
            probe_spec(b) == probe_sections(b, cursor.spec_pos(), probe),
        decreases b.len() - cursor.spec_pos(),
    {
        let ghost before = cursor.spec_pos();
        proof {
            if before < b.len() {
                lemma_leb_from_advances(b, before + 1, 0, 0);
            }
        }
        let at_end = cursor.at_end();
        match cursor.next_section() {
            None => {
                if at_end {
                    return probe;
                }
                return ModuleProbe { shared_memory: false, atomic_notify: false, worker_entry: false };
            },
            Some((id, payload)) => {
                if id == MEMORY_SECTION {
                    let signal = scan_memory_section(payload);
                    probe.shared_memory = probe.shared_memory || signal;
                } else if id == CODE_SECTION {
                    let signal = scan_code_section(payload);
                    probe.atomic_notify = probe.atomic_notify || signal;
                } else if id == EXPORT_SECTION {
                    let signal = scan_export_section(payload);
                    probe.worker_entry = probe.worker_entry || signal;
                }
            },
        }
    }
}

/// True when the code section payload contains the `memory.atomic.notify`
/// opcode sequence (`0xFE 0x00`).
pub fn scan_code_section(payload: &[u8]) -> (r: bool)
    ensures
        r == code_has_notify(payload@),
{
    let n = payload.len();
    if n < 2 {
        assert forall|j: int| !#[trigger] notify_at(payload@, j) by {}
        return false;
    }
    let mut i: usize = 0;
    while i < n - 1
        invariant
            n == payload@.len(),
            n >= 2,
            forall|j: int| 0 <= j < i ==> !#[trigger] notify_at(payload@, j),
        decreases n - i,
    {
        if payload[i] == 0xfe && payload[i + 1] == 0x00 {
            assert(notify_at(payload@, i as int));
            return true;
        }
        i = i + 1;
    }
    assert forall|j: int| !#[trigger] notify_at(payload@, j) by {
        if 0 <= j && j < i {
        }
    }
    false
}

/// True when an export section payload declares the multithreaded worker
/// entry export; false on malformed input.
pub fn scan_export_section(payload: &[u8]) -> (r: bool)
    ensures
        r == export_has_worker(payload@),
{
    let ghost b = payload@;
    let mut cursor = SectionCursor::over(payload);
    let count = match cursor.read_leb_u32() {
        Some(count) => count,
        None => return false,
    };
    let mut i: u32 = 0;
    while i < count
        invariant
            cursor.spec_bytes() == b,
            b == payload@,
            i <= count,
            export_has_worker(b) == exports_have_worker(b, cursor.spec_pos(), (count - i) as nat),
        decreases count - i,
    {
        let name_len = match cursor.read_leb_u32() {
            Some(name_len) => name_len,
            None => return false,
        };
        let len = cursor.bytes.len();
        let name_start = match cursor.pos.checked_add(name_len as usize) {
            Some(name_start) => name_start,
            None => {
                assert(cursor.spec_pos() + name_len > b.len());
                return false;
            },
        };
        if name_start > cursor.bytes.len() {
            return false;
        }
        if name_matches_worker(cursor.bytes, cursor.pos, name_start) {
            return true;
        }
        if name_start >= cursor.bytes.len() {
            return false;
        }
        cursor.pos = name_start + 1;
        if cursor.read_leb_u32().is_none() {
            return false;
        }
        i = i + 1;
    }
    false
}

/// True when `b[start..end]` is the worker entry export name.
fn name_matches_worker(b: &[u8], start: usize, end: usize) -> (r: bool)
    requires
        start <= end <= b@.len(),
    ensures
        r == (b@.subrange(start as int, end as int) == worker_entry_name()),
{
    if end - start != 21 {
        proof {
            assert(b@.subrange(start as int, end as int).len() != worker_entry_name().len());
        }
        return false;
    }
    let expected = WORKER_ENTRY_BYTES;
    assert(expected@ == worker_entry_name());
    let mut k: usize = 0;
    while k < 21
        invariant
            end - start == 21,
            start + 21 <= b@.len(),
            expected@ == worker_entry_name(),
            k <= 21,
            forall|j: int| 0 <= j < k ==> b@[start + j] == worker_entry_name()[j],
        decreases 21 - k,
    {
        if b[start + k] != expected[k] {
            proof {
                let s = b@.subrange(start as int, end as int);
                assert(s[k as int] != worker_entry_name()[k as int]);
            }
            return false;
        }
        k = k + 1;
    }
    assert(b@.subrange(start as int, end as int) =~= worker_entry_name());
    true
}

/// True when any memory entry in a memory section payload sets the shared
/// flag (bit 1 of the limits flags byte); false on malformed input.
pub fn scan_memory_section(payload: &[u8]) -> (r: bool)
    ensures
        r == memory_has_shared(payload@),
{
    let ghost b = payload@;
    let mut cursor = SectionCursor::over(payload);
    let count = match cursor.read_leb_u32() {
        Some(count) => count,
        None => return false,
    };
    let mut i: u32 = 0;
    while i < count
        invariant
            cursor.spec_bytes() == b,
            b == payload@,
            i <= count,
            memory_has_shared(b) == memory_entries_shared(b, cursor.spec_pos(), (count - i) as nat),
        decreases count - i,
    {
        if cursor.pos >= cursor.bytes.len() {
            return false;
        }
        let flags = cursor.bytes[cursor.pos];
        let shared = flags & 0x02 != 0;
        cursor.pos = cursor.pos + 1;
        if cursor.read_leb_u32().is_none() {
            return false;
        }
        if flags & 0x01 != 0 && cursor.read_leb_u32().is_none() {
            return false;
        }
        if shared {
            return true;
        }
        i = i + 1;
    }
    false
}

// ---------------------------------------------------------------------------
// Laws of the memory signal.
// ---------------------------------------------------------------------------
/// A memory entry whose limits fit in one byte each: the flags byte, the
/// minimum, and the maximum when bit 0 of the flags says one is present.
pub open spec fn memory_entry_bytes(flags: u8, min: u8, max: u8) -> Seq<u8> {
    if flags & 0x01 != 0 {
        seq![flags, min, max]
    } else {
        seq![flags, min]
    }
}

/// A run of such memory entries, one after the other.
pub open spec fn memory_entries_bytes(es: Seq<(u8, u8, u8)>) -> Seq<u8>
    decreases es.len(),
{
    if es.len() == 0 {
        Seq::empty()
    } else {
        memory_entry_bytes(es[0].0, es[0].1, es[0].2) + memory_entries_bytes(es.drop_first())
    }
}

/// Every limit of the entries fits in one LEB128 byte.
pub open spec fn one_byte_limits(es: Seq<(u8, u8, u8)>) -> bool {
    forall|i: int| 0 <= i < es.len() ==> (#[trigger] es[i]).1 < 0x80 && es[i].2 < 0x80
}

/// A byte below 0x80 is a whole LEB128 number: itself.
proof fn lemma_leb_one_byte(b: Seq<u8>, p: int)
    requires
        0 <= p < b.len(),
        b[p] < 0x80,
    ensures
        leb_u32(b, p) == Some((b[p] as u32, p + 1)),
{
    let byte = b[p];
    assert(byte & 0x80 == 0) by (bit_vector)
        requires
            byte < 0x80,
    ;
    assert(0u32 | (((byte & 0x7f) as u32) << 0u32) == byte as u32) by (bit_vector)
        requires
            byte < 0x80,
    ;
}

/// Scanning a run of entries finds a shared memory exactly when one of
/// them has bit 1 of its flags set.
proof fn lemma_entries_shared(b: Seq<u8>, pos: int, es: Seq<(u8, u8, u8)>)
    requires
        0 <= pos,
        pos + memory_entries_bytes(es).len() <= b.len(),
        b.subrange(pos, pos + memory_entries_bytes(es).len()) == memory_entries_bytes(es),
        one_byte_limits(es),
    ensures
        memory_entries_shared(b, pos, es.len()) == exists|i: int|
            0 <= i < es.len() && (#[trigger] es[i]).0 & 0x02 != 0,
    decreases es.len(),
{
    if es.len() > 0 {
        let e = es[0];
        let entry = memory_entry_bytes(e.0, e.1, e.2);
        let rest = es.drop_first();
        let enc = memory_entries_bytes(es);
        assert(enc == entry + memory_entries_bytes(rest));
        assert(b[pos] == enc[0]);
        assert(b[pos + 1] == enc[1]);
        assert(e.1 < 0x80);
        assert(e.2 < 0x80);
        lemma_leb_one_byte(b, pos + 1);
        let q = if e.0 & 0x01 != 0 {
            assert(b[pos + 2] == enc[2]);
            lemma_leb_one_byte(b, pos + 2);
            pos + 3
        } else {
            pos + 2
        };
        assert(q == pos + entry.len());
        if e.0 & 0x02 == 0 {
            assert forall|i: int| 0 <= i < rest.len() implies (#[trigger] rest[i]).1 < 0x80 && rest[i].2
                < 0x80 by {
                assert(rest[i] == es[i + 1]);
            }
            assert(b.subrange(q, q + memory_entries_bytes(rest).len()) =~= memory_entries_bytes(rest))
                by {
                assert forall|k: int| 0 <= k < memory_entries_bytes(rest).len() implies b.subrange(
                    q,
                    q + memory_entries_bytes(rest).len(),
                )[k] == memory_entries_bytes(rest)[k] by {
                    assert(b[q + k] == enc[entry.len() + k]);
                }
            }
            lemma_entries_shared(b, q, rest);
            if exists|i: int| 0 <= i < es.len() && (#[trigger] es[i]).0 & 0x02 != 0 {
                let i = choose|i: int| 0 <= i < es.len() && (#[trigger] es[i]).0 & 0x02 != 0;
                assert(i != 0);
                assert(rest[i - 1] == es[i]);
            }
            if exists|i: int| 0 <= i < rest.len() && (#[trigger] rest[i]).0 & 0x02 != 0 {
                let i = choose|i: int| 0 <= i < rest.len() && (#[trigger] rest[i]).0 & 0x02 != 0;
                assert(es[i + 1] == rest[i]);
            }
        } else {
            assert(es[0].0 & 0x02 != 0);
        }
    }
}

/// The memory signal of a section is a property of the entries' flags
/// alone: a memory section holding `es.len()` entries with one-byte limits
/// signals a shared memory exactly when some entry has bit 1 (0x02) of its
/// limits flags set, whatever bit 0 (a maximum is present) says.
pub proof fn lemma_memory_shared_iff_shared_flag(es: Seq<(u8, u8, u8)>)
    requires
        es.len() < 0x80,
        one_byte_limits(es),
    ensures
        memory_has_shared(seq![es.len() as u8] + memory_entries_bytes(es)) == exists|i: int|
            0 <= i < es.len() && (#[trigger] es[i]).0 & 0x02 != 0,
{
    let payload = seq![es.len() as u8] + memory_entries_bytes(es);
    lemma_leb_one_byte(payload, 0);
    assert(payload.subrange(1, 1 + memory_entries_bytes(es).len() as int) =~= memory_entries_bytes(es));
    lemma_entries_shared(payload, 1, es);
}

/// A module holding only a memory section whose size fits in one byte
/// probes as shared memory exactly when that section signals it, and with
/// no other signal.
pub proof fn lemma_probe_memory_only_module(payload: Seq<u8>)
    requires
        payload.len() < 0x80,
    ensures
        ({
            let m = seq![0x00u8, 0x61, 0x73, 0x6d, 0x01, 0x00, 0x00, 0x00, MEMORY_SECTION, payload.len() as u8]
                + payload;
            &&& probe_spec(m).shared_memory == memory_has_shared(payload)
            &&& !probe_spec(m).atomic_notify
            &&& !probe_spec(m).worker_entry
        }),
{
    let m = seq![0x00u8, 0x61, 0x73, 0x6d, 0x01, 0x00, 0x00, 0x00, MEMORY_SECTION, payload.len() as u8]
        + payload;
    assert(has_wasm_header(m));
    lemma_leb_one_byte(m, 9);
    assert(m.subrange(10, 10 + payload.len() as int) =~= payload);
    assert(section_at(m, 8) == Some((MEMORY_SECTION, payload, 10 + payload.len() as int)));
    let acc = fold_section(no_signals(), MEMORY_SECTION, payload);
    assert(section_at(m, m.len() as int) is None);
    assert(probe_sections(m, m.len() as int, acc) == acc);
}

/// A module whose only section is a memory section of entries none of
/// which has bit 1 (0x02) of its limits flags set never probes as shared
/// memory, whether or not the entries carry a maximum.
pub proof fn lemma_unshared_memories_never_signal(es: Seq<(u8, u8, u8)>)
    requires
        es.len() < 0x80,
        one_byte_limits(es),
        1 + memory_entries_bytes(es).len() < 0x80,
        forall|i: int| 0 <= i < es.len() ==> (#[trigger] es[i]).0 & 0x02 == 0,
    ensures
        ({
            let payload = seq![es.len() as u8] + memory_entries_bytes(es);
            let m = seq![0x00u8, 0x61, 0x73, 0x6d, 0x01, 0x00, 0x00, 0x00, MEMORY_SECTION, payload.len() as u8]
                + payload;
            !probe_spec(m).shared_memory
        }),
{
    let payload = seq![es.len() as u8] + memory_entries_bytes(es);
    lemma_memory_shared_iff_shared_flag(es);
    lemma_probe_memory_only_module(payload);
}

} // verus!
