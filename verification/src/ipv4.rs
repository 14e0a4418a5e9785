//! IPv4 header checksums and fragmentation.

use vstd::prelude::*;

use crate::wire::{push_be16, push_range, read_be16};
#[allow(unused_imports)]
use crate::wire::{be16, be16_bytes};

verus! {

/// The sum of the big-endian 16-bit words of `s`; an odd last byte is the high half of a word.
pub open spec fn word_sum(s: Seq<u8>) -> nat
    decreases s.len(),
{
    if s.len() == 0 {
        0
    } else if s.len() == 1 {
        s[0] as nat * 256
    } else {
        (s[0] * 256 + s[1]) as nat + word_sum(s.skip(2))
    }
}

/// `n` reduced to sixteen bits by one's-complement addition of its words: the remainder modulo
/// 65535, with 65535 standing for the remainder zero of a nonzero `n`.
pub open spec fn ones_complement(n: nat) -> nat {
    if n == 0 {
        0
    } else {
        ((n - 1) % 65535 + 1) as nat
    }
}

/// `header` with the two bytes of its checksum field cleared.
pub open spec fn checksum_cleared(header: Seq<u8>) -> Seq<u8> {
    header.update(10, 0).update(11, 0)
}

/// The Internet checksum of `header`, its checksum field taken as zero. Words are summed in 32 bits.
pub open spec fn checksum_of(header: Seq<u8>) -> u16 {
    (65535 - ones_complement(word_sum(checksum_cleared(header)) % 0x1_0000_0000)) as u16
}

proof fn lemma_fold_step(sum: u32)
    ensures
        sum >> 16 == sum / 65536,
        sum & 0xFFFF == sum % 65536,
{
    assert(sum >> 16 == sum / 65536) by (bit_vector);
    assert(sum & 0xFFFF == sum % 65536) by (bit_vector);
}

proof fn lemma_fold_keeps(sum: nat)
    requires
        sum >= 65536,
    ensures
        ones_complement(sum % 65536 + sum / 65536) == ones_complement(sum),
        0 < sum % 65536 + sum / 65536 < sum,
{
    let lo: int = (sum % 65536) as int;
    let hi: int = (sum / 65536) as int;
    let next: int = lo + hi;
    assert(sum == hi * 65536 + lo);
    assert((next - 1) % 65535 == (sum - 1) % 65535) by {
        assert(sum - 1 == 65535 * hi + (next - 1));
        vstd::arithmetic::div_mod::lemma_mod_multiples_vanish(hi, next - 1, 65535);
    }
}

proof fn lemma_word_sum_tail(s: Seq<u8>, i: int)
    requires
        0 <= i,
        i + 2 <= s.len(),
    ensures
        word_sum(s.skip(i)) == (s[i] * 256 + s[i + 1]) as nat + word_sum(s.skip(i + 2)),
{
    assert(s.skip(i).skip(2) =~= s.skip(i + 2));
}

/// Clears the checksum field of `header` and returns the checksum of what remains.
pub fn ipv4_checksum(header: &mut [u8]) -> (sum: u16)
    requires
        old(header)@.len() >= 12,
    ensures
        final(header)@ == checksum_cleared(old(header)@),
        sum == checksum_of(old(header)@),
{
    header[10] = 0;
    header[11] = 0;
    let ghost h: Seq<u8> = header@;
    let n: usize = header.len();
    let mut sum: u32 = 0;
    let mut i: usize = 0;
    assert(h.skip(0) =~= h);
    while n - i >= 2
        invariant
            n == h.len(),
            h == header@,
            i <= n,
            (sum + word_sum(h.skip(i as int))) % 0x1_0000_0000 == word_sum(h) % 0x1_0000_0000,
        decreases n - i,
    {
        let word: u32 = (header[i] as u32) * 256 + header[i + 1] as u32;
        proof {
            lemma_word_sum_tail(h, i as int);
        }
        sum = sum.wrapping_add(word);
        i += 2;
    }
    if i < n {
        sum = sum.wrapping_add((header[i] as u32) * 256);
        assert(h.skip(i as int).len() == 1);
    }
    let ghost folded: nat = word_sum(h) % 0x1_0000_0000;
    assert(sum == folded);
    while (sum >> 16) != 0
        invariant
            ones_complement(sum as nat) == ones_complement(folded),
        decreases sum,
    {
        proof {
            lemma_fold_step(sum);
            lemma_fold_keeps(sum as nat);
        }
        sum = (sum & 0xFFFF) + (sum >> 16);
    }
    proof {
        lemma_fold_step(sum);
    }
    65535 - sum as u16
}

/// The IP version in the first nibble of a packet.
pub open spec fn ip_version(pkt: Seq<u8>) -> int {
    pkt[0] as int / 16
}

/// The length in bytes that an IPv4 header declares for itself.
pub open spec fn header_len(pkt: Seq<u8>) -> int {
    (pkt[0] as int % 16) * 4
}

/// The total length that an IPv4 header declares for the packet.
pub open spec fn total_len(pkt: Seq<u8>) -> int {
    be16(pkt[2], pkt[3])
}

/// Whether the Don't Fragment bit of an IPv4 header is set.
pub open spec fn dont_fragment(pkt: Seq<u8>) -> bool {
    pkt[6] as int / 64 % 2 == 1
}

/// The More Fragments bit of an IPv4 header.
pub open spec fn more_fragments(pkt: Seq<u8>) -> bool {
    pkt[6] as int / 32 % 2 == 1
}

/// The fragment offset of an IPv4 header, in bytes.
pub open spec fn fragment_offset(pkt: Seq<u8>) -> int {
    (pkt[6] as int % 32 * 256 + pkt[7]) * 8
}

/// The checksum field of an IPv4 header.
pub open spec fn checksum_field(pkt: Seq<u8>) -> int {
    be16(pkt[10], pkt[11])
}

/// The payload of an IPv4 packet: what follows the header, up to the declared total length or to
/// the end of the buffer, whichever comes first.
pub open spec fn payload_of(pkt: Seq<u8>) -> Seq<u8> {
    let end: int = if total_len(pkt) <= pkt.len() {
        total_len(pkt)
    } else {
        pkt.len() as int
    };
    pkt.subrange(header_len(pkt), end)
}

/// The largest multiple of eight bytes that a fragment can carry under `mtu`.
pub open spec fn fragment_room(pkt: Seq<u8>, mtu: int) -> int {
    (mtu - header_len(pkt)) / 8 * 8
}

/// When a packet is cut up: it is a well-formed IPv4 packet longer than `mtu`, with a payload, the
/// Don't Fragment bit does not forbid it, and `mtu` leaves room for at least eight bytes.
pub open spec fn must_fragment(pkt: Seq<u8>, mtu: int, respect_df: bool) -> bool {
    &&& pkt.len() > 20
    &&& ip_version(pkt) == 4
    &&& 20 <= header_len(pkt) <= pkt.len()
    &&& pkt.len() > mtu
    &&& !(dont_fragment(pkt) && respect_df)
    &&& mtu >= header_len(pkt) + 8
    &&& total_len(pkt) > header_len(pkt)
}

/// Whether an option area starts with an option that is more than one byte long and inside the area:
/// its type, its length with both of these bytes counted, its data.
pub open spec fn starts_with_option(area: Seq<u8>) -> bool {
    area.len() >= 2 && area[0] > 1 && 2 <= area[1] <= area.len()
}

/// The options of a later fragment: an option goes into every fragment only where the flag in the
/// highest bit of its type says so; any other is replaced by no-operation bytes. What follows the end
/// of the list, or an option that is not inside the area, stays as it is.
pub open spec fn later_options(area: Seq<u8>) -> Seq<u8>
    decreases area.len(),
{
    if starts_with_option(area) {
        let n: int = area[1] as int;
        let option: Seq<u8> = if area[0] >= 128 {
            area.take(n)
        } else {
            Seq::new(n as nat, |i: int| 1u8)
        };
        option + later_options(area.skip(n))
    } else if area.len() > 0 && area[0] == 1 {
        seq![1u8] + later_options(area.skip(1))
    } else {
        area
    }
}

/// The options of a fragment: all of them in the first, in a later one those that belong there.
pub open spec fn fragment_options(pkt: Seq<u8>, offset: int) -> Seq<u8> {
    let area: Seq<u8> = pkt.subrange(20, header_len(pkt));
    if offset == 0 {
        area
    } else {
        later_options(area)
    }
}

/// The header of the fragment that carries `len` payload bytes from `offset` on, with `checksum` in
/// its checksum field; `more` says whether more of the payload follows. The options are those that
/// belong there; everything else but the length, the fragment field and the checksum is copied. Where `pkt` is itself a fragment, its own offset is
/// added and its own More Fragments bit is kept. An offset that the field has no bits for is taken
/// modulo 65536 bytes.
pub open spec fn fragment_header_with(
    pkt: Seq<u8>,
    offset: int,
    len: int,
    more: bool,
    checksum: int,
) -> Seq<u8> {
    seq![pkt[0], pkt[1]] + be16_bytes(header_len(pkt) + len) + seq![pkt[4], pkt[5]] + be16_bytes(
        (if more || more_fragments(pkt) {
            0x2000int
        } else {
            0
        }) + (fragment_offset(pkt) + offset) / 8 % 0x2000,
    ) + seq![pkt[8], pkt[9]] + be16_bytes(checksum) + pkt.subrange(12, 20) + fragment_options(
        pkt,
        offset,
    )
}

/// The header of a fragment, with its own checksum.
pub open spec fn fragment_header(pkt: Seq<u8>, offset: int, len: int, more: bool) -> Seq<u8> {
    fragment_header_with(
        pkt,
        offset,
        len,
        more,
        checksum_of(fragment_header_with(pkt, offset, len, more, 0)) as int,
    )
}

/// How many fragments of `room` payload bytes carry `len` bytes.
pub open spec fn fragment_count(len: int, room: int) -> int {
    (len + room - 1) / room
}

/// The payload of the `k`-th fragment.
pub open spec fn fragment_payload(pkt: Seq<u8>, mtu: int, k: int) -> Seq<u8> {
    let room: int = fragment_room(pkt, mtu);
    let all: Seq<u8> = payload_of(pkt);
    all.subrange(
        k * room,
        if (k + 1) * room <= all.len() {
            (k + 1) * room
        } else {
            all.len() as int
        },
    )
}

/// The `k`-th fragment of `pkt` under `mtu`.
pub open spec fn fragment_of(pkt: Seq<u8>, mtu: int, k: int) -> Seq<u8> {
    let room: int = fragment_room(pkt, mtu);
    let data: Seq<u8> = fragment_payload(pkt, mtu, k);
    fragment_header(pkt, k * room, data.len() as int, (k + 1) * room < payload_of(pkt).len()) + data
}

/// All fragments of `pkt` under `mtu`, in the order of their offsets.
pub open spec fn fragments_of(pkt: Seq<u8>, mtu: int) -> Seq<Seq<u8>> {
    Seq::new(
        fragment_count(payload_of(pkt).len() as int, fragment_room(pkt, mtu)) as nat,
        |k: int| fragment_of(pkt, mtu, k),
    )
}

proof fn lemma_header_bits(first: u8, flags: u8)
    ensures
        first >> 4 == first / 16,
        first & 0x0f == first % 16,
        (flags & 0x40 != 0) == (flags as int / 64 % 2 == 1),
{
    assert(first >> 4 == first / 16) by (bit_vector);
    assert(first & 0x0f == first % 16) by (bit_vector);
    assert((flags & 0x40 != 0) == (flags / 64 % 2 == 1)) by (bit_vector);
}

proof fn lemma_options_length(area: Seq<u8>)
    ensures
        later_options(area).len() == area.len(),
    decreases area.len(),
{
    if starts_with_option(area) {
        lemma_options_length(area.skip(area[1] as int));
    } else if area.len() > 0 && area[0] == 1 {
        lemma_options_length(area.skip(1));
    }
}

/// Appends to `out` what a later fragment has of the options `pkt[from..to]`.
fn push_later_options(out: &mut Vec<u8>, pkt: &[u8], from: usize, to: usize)
    requires
        from <= to <= pkt@.len(),
    ensures
        final(out)@ == old(out)@ + later_options(pkt@.subrange(from as int, to as int)),
{
    let ghost start: Seq<u8> = out@;
    let ghost all: Seq<u8> = later_options(pkt@.subrange(from as int, to as int));
    let mut i: usize = from;
    let mut open: bool = true;
    assert(start + all =~= out@ + later_options(pkt@.subrange(i as int, to as int)));
    while i < to && open
        invariant
            from <= i <= to <= pkt@.len(),
            out@ + later_options(pkt@.subrange(i as int, to as int)) == start + all,
            !open ==> later_options(pkt@.subrange(i as int, to as int)) == pkt@.subrange(
                i as int,
                to as int,
            ),
        decreases to - i + (if open {
            1int
        } else {
            0
        }),
    {
        let ghost area: Seq<u8> = pkt@.subrange(i as int, to as int);
        let ghost before: Seq<u8> = out@;
        if pkt[i] > 1 && to - i >= 2 && pkt[i + 1] >= 2 && pkt[i + 1] as usize <= to - i {
            let n: usize = pkt[i + 1] as usize;
            if pkt[i] >= 128 {
                push_range(out, pkt, i, i + n);
                assert(pkt@.subrange(i as int, i + n) =~= area.take(n as int));
            } else {
                push_no_operations(out, n);
            }
            proof {
                let rest: Seq<u8> = pkt@.subrange(i + n, to as int);
                assert(area.skip(n as int) =~= rest);
                assert(out@ + later_options(rest) =~= before + later_options(area));
            }
            i += n;
        } else if pkt[i] == 1 {
            out.push(1);
            proof {
                let rest: Seq<u8> = pkt@.subrange(i + 1, to as int);
                assert(area.skip(1) =~= rest);
                assert(out@ + later_options(rest) =~= before + later_options(area));
            }
            i += 1;
        } else {
            open = false;
        }
    }
    push_range(out, pkt, i, to);
}

/// Appends `n` no-operation bytes.
fn push_no_operations(out: &mut Vec<u8>, n: usize)
    ensures
        final(out)@ == old(out)@ + Seq::new(n as nat, |i: int| 1u8),
{
    let ghost start: Seq<u8> = out@;
    let mut i: usize = 0;
    assert(start =~= start + Seq::new(0nat, |i: int| 1u8));
    while i < n
        invariant
            i <= n,
            out@ == start + Seq::new(i as nat, |i: int| 1u8),
        decreases n - i,
    {
        out.push(1);
        i += 1;
        assert(out@ =~= start + Seq::new(i as nat, |i: int| 1u8));
    }
}

/// Builds the header of the fragment that carries `payload[from..to]`, its checksum field cleared.
fn build_header(pkt: &[u8], ihl: usize, from: usize, to: usize, more: bool) -> (head: Vec<u8>)
    requires
        pkt@.len() > 20,
        ihl == header_len(pkt@),
        20 <= ihl,
        from <= to,
        ihl + to <= pkt@.len(),
        ihl + to <= 65535,
    ensures
        head@ == fragment_header_with(pkt@, from as int, to - from, more, 0),
        head@.len() == ihl,
        checksum_cleared(head@) == head@,
{
    let ghost p: Seq<u8> = pkt@;
    let frag_len: u16 = (ihl + (to - from)) as u16;
    let flags: u16 = if more || pkt[6] / 32 % 2 == 1 {
        0x2000
    } else {
        0
    };
    let own_units: u16 = (pkt[6] % 32) as u16 * 256 + pkt[7] as u16;
    let off_units: u16 = (own_units + (from / 8) as u16) % 0x2000;
    let frag_off: u16 = flags + off_units;
    assert(off_units == (fragment_offset(p) + from) / 8 % 0x2000);
    let mut head: Vec<u8> = Vec::new();
    head.push(pkt[0]);
    head.push(pkt[1]);
    push_be16(&mut head, frag_len);
    head.push(pkt[4]);
    head.push(pkt[5]);
    push_be16(&mut head, frag_off);
    head.push(pkt[8]);
    head.push(pkt[9]);
    push_be16(&mut head, 0);
    push_range(&mut head, pkt, 12, 20);
    let ghost fixed: Seq<u8> = head@;
    push_options(&mut head, pkt, ihl, from);
    proof {
        assert(fixed.len() == 20);
        assert(head@ =~= fragment_header_with(p, from as int, to - from, more, 0));
        assert(checksum_cleared(head@) =~= head@);
    }
    head
}

/// Appends the options of the fragment whose payload starts at `from`.
fn push_options(out: &mut Vec<u8>, pkt: &[u8], ihl: usize, from: usize)
    requires
        ihl == header_len(pkt@),
        20 <= ihl <= pkt@.len(),
    ensures
        final(out)@ == old(out)@ + fragment_options(pkt@, from as int),
        final(out)@.len() == old(out)@.len() + ihl - 20,
{
    proof {
        lemma_options_length(pkt@.subrange(20, ihl as int));
    }
    if from == 0 {
        push_range(out, pkt, 20, ihl);
    } else {
        push_later_options(out, pkt, 20, ihl);
    }
}

/// Builds the fragment that carries `payload[from..to]`, where the payload starts at `ihl`.
#[verifier::rlimit(40)]
fn build_fragment(pkt: &[u8], ihl: usize, from: usize, to: usize, more: bool) -> (buf: Vec<u8>)
    requires
        pkt@.len() > 20,
        ihl == header_len(pkt@),
        20 <= ihl,
        from <= to,
        from % 8 == 0,
        ihl + to <= pkt@.len(),
        ihl + to <= 65535,
    ensures
        buf@ == fragment_header(pkt@, from as int, to - from, more) + pkt@.subrange(
            ihl + from,
            ihl + to,
        ),
{
    let ghost p: Seq<u8> = pkt@;
    let mut head: Vec<u8> = build_header(pkt, ihl, from, to, more);
    let ghost bare: Seq<u8> = head@;
    let sum: u16 = ipv4_checksum(head.as_mut_slice());
    let mut buf: Vec<u8> = Vec::new();
    push_range(&mut buf, head.as_slice(), 0, 10);
    push_be16(&mut buf, sum);
    push_range(&mut buf, head.as_slice(), 12, ihl);
    proof {
        let full: Seq<u8> = fragment_header(p, from as int, to - from, more);
        lemma_header_layout(p, from as int, to - from, more, sum as int);
        assert(full == fragment_header_with(p, from as int, to - from, more, sum as int));
        assert(full.len() == ihl);
        assert(checksum_cleared(full) == bare);
        assert(buf@ =~= full) by {
            assert forall|i: int| 0 <= i < ihl implies #[trigger] buf@[i] == full[i] by {
                if i != 10 && i != 11 {
                    assert(checksum_cleared(full)[i] == full[i]);
                }
            }
        }
    }
    push_range(&mut buf, pkt, ihl + from, ihl + to);
    buf
}

/// Cuts an IPv4 packet that is longer than `mtu` into fragments, as RFC 791 has it, also where the
/// packet is itself a fragment. `None` means that the packet is to be passed on as it is.
#[verifier::spinoff_prover]
#[verifier::rlimit(60)]
pub fn ipv4_fragment_if_needed(pkt: &[u8], mtu: usize, respect_df: bool) -> (frags: Option<
    Vec<Vec<u8>>,
>)
    ensures
        frags is Some == must_fragment(pkt@, mtu as int, respect_df),
        frags matches Some(list) ==> list@.map_values(|f: Vec<u8>| f@) == fragments_of(
            pkt@,
            mtu as int,
        ),
{
    if pkt.len() <= 20 {
        return None;
    }
    proof {
        lemma_header_bits(pkt@[0], pkt@[6]);
    }
    if (pkt[0] >> 4) != 4 {
        return None;
    }
    let ihl: usize = ((pkt[0] & 0x0f) as usize) * 4;
    if pkt.len() < ihl || ihl < 20 {
        return None;
    }
    if pkt.len() <= mtu {
        return None;
    }
    let df_set: bool = (pkt[6] & 0x40) != 0;
    if df_set && respect_df {
        return None;
    }
    if mtu <= ihl {
        return None;
    }
    let room: usize = (mtu - ihl) / 8 * 8;
    if room == 0 {
        return None;
    }
    let declared: usize = read_be16(pkt[2], pkt[3]) as usize;
    if declared <= ihl {
        return None;
    }
    let end: usize = if declared <= pkt.len() {
        declared
    } else {
        pkt.len()
    };
    let len: usize = end - ihl;
    let ghost p: Seq<u8> = pkt@;
    let ghost m: int = mtu as int;
    let ghost count: int = fragment_count(len as int, room as int);
    let mut frags: Vec<Vec<u8>> = Vec::new();
    let mut offset: usize = 0;
    let ghost mut k: int = 0;
    proof {
        lemma_count(len as int, room as int, 0);
    }
    while offset < len
        invariant
            p == pkt@,
            m == mtu,
            p.len() > 20,
            20 <= ihl == header_len(p),
            ihl < end <= p.len(),
            end <= 65535,
            len == end - ihl,
            len == payload_of(p).len(),
            payload_of(p) == p.subrange(ihl as int, end as int),
            room == fragment_room(p, m),
            room >= 8,
            count == fragment_count(len as int, room as int),
            0 <= k <= count,
            frags@.len() == k,
            offset <= len,
            offset < len ==> offset == k * room,
            room % 8 == 0,
            offset < len ==> offset % 8 == 0,
            offset == len ==> k == count,
            forall|j: int| 0 <= j < k ==> (#[trigger] frags@[j])@ == fragment_of(p, m, j),
        decreases len - offset,
    {
        let remaining: usize = len - offset;
        let take: usize = if remaining > room {
            room
        } else {
            remaining
        };
        let more: bool = offset + take < len;
        proof {
            lemma_count(len as int, room as int, k);
            assert((k + 1) * room == k * room + room) by (nonlinear_arith);
        }
        let buf: Vec<u8> = build_fragment(pkt, ihl, offset, offset + take, more);
        assert(buf@ =~= fragment_of(p, m, k)) by {
            assert(fragment_payload(p, m, k) =~= p.subrange(ihl + offset, ihl + offset + take));
        }
        frags.push(buf);
        offset += take;
        proof {
            k = k + 1;
        }
    }
    assert(frags@.map_values(|f: Vec<u8>| f@) =~= fragments_of(p, m));
    Some(frags)
}

proof fn lemma_count(len: int, room: int, k: int)
    requires
        len > 0,
        room > 0,
        k >= 0,
        k == 0 || k * room < len,
    ensures
        fragment_count(len, room) > 0,
        (k + 1) * room >= len ==> fragment_count(len, room) == k + 1,
        (k + 1) * room < len ==> fragment_count(len, room) > k + 1,
        k < fragment_count(len, room),
{
    let n: int = fragment_count(len, room);
    vstd::arithmetic::div_mod::lemma_fundamental_div_mod(len + room - 1, room);
    assert(n * room <= len + room - 1 < n * room + room) by (nonlinear_arith)
        requires
            len + room - 1 == room * n + (len + room - 1) % room,
            0 <= (len + room - 1) % room < room,
    ;
    assert(n > k) by (nonlinear_arith)
        requires
            len + room - 1 < n * room + room,
            k == 0 || k * room < len,
            len > 0,
            room > 0,
    ;
    if (k + 1) * room >= len {
        assert(n < k + 2) by (nonlinear_arith)
            requires
                n * room <= len + room - 1,
                (k + 1) * room >= len,
                room > 0,
        ;
    } else {
        assert(n > k + 1) by (nonlinear_arith)
            requires
                len + room - 1 < n * room + room,
                (k + 1) * room < len,
                room > 0,
        ;
    }
}

pub(crate) proof fn lemma_word_sum_bound(s: Seq<u8>)
    ensures
        word_sum(s) <= 65535 * ((s.len() + 1) / 2),
    decreases s.len(),
{
    if s.len() >= 2 {
        lemma_word_sum_bound(s.skip(2));
    }
}

pub(crate) proof fn lemma_word_sum_update(s: Seq<u8>, i: int, hi: u8, lo: u8)
    requires
        0 <= i,
        i % 2 == 0,
        i + 2 <= s.len(),
    ensures
        word_sum(s.update(i, hi).update(i + 1, lo)) + (s[i] * 256 + s[i + 1]) == word_sum(s) + (hi
            * 256 + lo),
    decreases s.len(),
{
    let t: Seq<u8> = s.update(i, hi).update(i + 1, lo);
    if i == 0 {
        assert(t.skip(2) =~= s.skip(2));
    } else {
        lemma_word_sum_update(s.skip(2), i - 2, hi, lo);
        assert(t.skip(2) =~= s.skip(2).update(i - 2, hi).update(i - 1, lo));
    }
}

/// A header that carries its own checksum sums to all ones, which is how a receiver accepts it. Beyond
/// this length the sum can leave its 32 bits.
pub proof fn checksum_validates(header: Seq<u8>)
    requires
        12 <= header.len() <= 131076,
        checksum_field(header) == checksum_of(header),
    ensures
        ones_complement(word_sum(header)) == 65535,
{
    let bare: Seq<u8> = checksum_cleared(header);
    lemma_word_sum_update(header, 10, 0, 0);
    lemma_word_sum_update(bare, 10, 0xff, 0xff);
    lemma_word_sum_bound(bare.update(10, 0xff).update(11, 0xff));
    let sum: nat = word_sum(bare);
    assert(sum < 0x1_0000_0000);
    let reduced: int = ones_complement(sum) as int;
    let all: int = word_sum(header) as int;
    assert(all == sum + (65535 - reduced));
    if sum > 0 {
        vstd::arithmetic::div_mod::lemma_fundamental_div_mod(sum - 1, 65535);
        let q: int = (sum - 1) / 65535;
        assert(all - 1 == 65535 * q + 65534);
        vstd::arithmetic::div_mod::lemma_mod_multiples_vanish(q, 65534, 65535);
    }
}

/// What the fragment field says of an offset and of what follows.
proof fn lemma_fragment_field(position: int, more: bool)
    requires
        position >= 0,
        position % 8 == 0,
    ensures
        ({
            let field: int = (if more {
                0x2000int
            } else {
                0
            }) + position / 8 % 0x2000;
            let hi: u8 = (field / 256) as u8;
            let lo: u8 = (field % 256) as u8;
            &&& hi as int / 64 % 2 == 0
            &&& (hi as int / 32 % 2 == 1) == more
            &&& (hi as int % 32 * 256 + lo) * 8 == position % 0x1_0000
        }),
{
}

proof fn lemma_header_layout(pkt: Seq<u8>, offset: int, len: int, more: bool, sum: int)
    requires
        20 <= header_len(pkt) <= pkt.len(),
        0 <= len,
        header_len(pkt) + len <= 65535,
        0 <= offset,
        offset % 8 == 0,
        0 <= sum <= 65535,
    ensures
        ({
            let h: Seq<u8> = fragment_header_with(pkt, offset, len, more, sum);
            let ihl: int = header_len(pkt);
            &&& h.len() == ihl
            &&& h[0] == pkt[0]
            &&& h[1] == pkt[1]
            &&& total_len(h) == ihl + len
            &&& h.subrange(4, 6) == pkt.subrange(4, 6)
            &&& h.subrange(8, 10) == pkt.subrange(8, 10)
            &&& h.subrange(12, 20) == pkt.subrange(12, 20)
            &&& h.subrange(20, ihl) == fragment_options(pkt, offset)
            &&& !dont_fragment(h)
            &&& more_fragments(h) == (more || more_fragments(pkt))
            &&& fragment_offset(h) == (fragment_offset(pkt) + offset) % 0x1_0000
            &&& checksum_field(h) == sum
            &&& checksum_cleared(h) == fragment_header_with(pkt, offset, len, more, 0)
        }),
{
    let h: Seq<u8> = fragment_header_with(pkt, offset, len, more, sum);
    let ihl: int = header_len(pkt);
    lemma_options_length(pkt.subrange(20, ihl));
    lemma_fragment_field(fragment_offset(pkt) + offset, more || more_fragments(pkt));
    assert(h.len() == ihl);
    assert(h.subrange(4, 6) =~= pkt.subrange(4, 6));
    assert(h.subrange(8, 10) =~= pkt.subrange(8, 10));
    assert(h.subrange(12, 20) =~= pkt.subrange(12, 20));
    assert(h.subrange(20, ihl) =~= fragment_options(pkt, offset));
    assert(checksum_cleared(h) =~= fragment_header_with(pkt, offset, len, more, 0));
}

/// What each fragment is: an IPv4 packet no longer than the MTU that declares its own length, keeps
/// the header fields of the packet it came from and the options that belong there, says where its
/// payload belongs in a multiple of eight bytes, has More Fragments set unless it is the last of the
/// last, and a checksum of its own. Offsets are modulo 65536, all that the field can say.
#[verifier::spinoff_prover]
#[verifier::rlimit(40)]
pub proof fn fragment_is_well_formed(pkt: Seq<u8>, mtu: int, respect_df: bool, k: int)
    requires
        must_fragment(pkt, mtu, respect_df),
        0 <= k < fragments_of(pkt, mtu).len(),
    ensures
        ({
            let f: Seq<u8> = fragments_of(pkt, mtu)[k];
            let ihl: int = header_len(pkt);
            &&& ihl < f.len() <= mtu
            &&& ip_version(f) == 4
            &&& header_len(f) == ihl
            &&& total_len(f) == f.len()
            &&& f[1] == pkt[1]
            &&& f.subrange(4, 6) == pkt.subrange(4, 6)
            &&& f.subrange(8, 10) == pkt.subrange(8, 10)
            &&& f.subrange(12, 20) == pkt.subrange(12, 20)
            &&& f.subrange(20, ihl) == if k == 0 {
                pkt.subrange(20, ihl)
            } else {
                later_options(pkt.subrange(20, ihl))
            }
            &&& !dont_fragment(f)
            &&& more_fragments(f) == (k + 1 < fragments_of(pkt, mtu).len() || more_fragments(pkt))
            &&& fragment_offset(f) == (fragment_offset(pkt) + k * fragment_room(pkt, mtu)) % 0x1_0000
            &&& payload_of(f) == fragment_payload(pkt, mtu, k)
            &&& ones_complement(word_sum(f.subrange(0, ihl))) == 65535
        }),
{
    let ihl: int = header_len(pkt);
    let room: int = fragment_room(pkt, mtu);
    let all: Seq<u8> = payload_of(pkt);
    let len: int = all.len() as int;
    let count: int = fragment_count(len, room);
    let f: Seq<u8> = fragments_of(pkt, mtu)[k];
    lemma_position(len, room, k);
    let data: Seq<u8> = fragment_payload(pkt, mtu, k);
    let more: bool = (k + 1) * room < len;
    let offset: int = k * room;
    assert(0 < data.len() <= room);
    assert(offset + data.len() <= len);
    assert(offset % 8 == 0) by {
        assert(room == 8 * ((mtu - ihl) / 8));
        assert(k * room == 8 * (k * ((mtu - ihl) / 8))) by (nonlinear_arith)
            requires
                room == 8 * ((mtu - ihl) / 8),
        ;
    }
    assert(offset == 0 <==> k == 0) by (nonlinear_arith)
        requires
            offset == k * room,
            room > 0,
    ;
    let bare: Seq<u8> = fragment_header_with(pkt, offset, data.len() as int, more, 0);
    let head: Seq<u8> = fragment_header(pkt, offset, data.len() as int, more);
    lemma_header_layout(pkt, offset, data.len() as int, more, checksum_of(bare) as int);
    lemma_header_layout(pkt, offset, data.len() as int, more, 0);
    assert(f == head + data);
    assert(f.subrange(4, 6) =~= head.subrange(4, 6));
    assert(f.subrange(8, 10) =~= head.subrange(8, 10));
    assert(f.subrange(12, 20) =~= head.subrange(12, 20));
    assert(f.subrange(20, ihl) =~= head.subrange(20, ihl));
    assert(payload_of(f) =~= data);
    assert(f.subrange(0, ihl) =~= head);
    checksum_validates(head);
}

pub(crate) proof fn lemma_position(len: int, room: int, k: int)
    requires
        len > 0,
        room > 0,
        0 <= k < fragment_count(len, room),
    ensures
        0 <= k * room < len,
        (k + 1) * room == k * room + room,
        (k + 1) * room < len <==> k + 1 < fragment_count(len, room),
{
    let n: int = fragment_count(len, room);
    vstd::arithmetic::div_mod::lemma_fundamental_div_mod(len + room - 1, room);
    assert(n * room <= len + room - 1) by (nonlinear_arith)
        requires
            len + room - 1 == room * n + (len + room - 1) % room,
            0 <= (len + room - 1) % room,
    ;
    assert((k + 1) * room == k * room + room && 0 <= k * room < len) by (nonlinear_arith)
        requires
            n * room <= len + room - 1,
            0 <= k < n,
            room > 0,
    ;
    lemma_count(len, room, k);
}

/// The options of an area that are more than one byte long, up to its end, the end of the list, or an
/// option that is not inside the area; with `copied`, only those that belong in every fragment.
pub open spec fn options_in(area: Seq<u8>, copied: bool) -> Seq<Seq<u8>>
    decreases area.len(),
{
    if starts_with_option(area) {
        let rest: Seq<Seq<u8>> = options_in(area.skip(area[1] as int), copied);
        if copied && area[0] < 128 {
            rest
        } else {
            seq![area.take(area[1] as int)] + rest
        }
    } else if area.len() > 0 && area[0] == 1 {
        options_in(area.skip(1), copied)
    } else {
        Seq::empty()
    }
}

proof fn lemma_no_operations(n: nat, rest: Seq<u8>)
    ensures
        options_in(Seq::new(n, |i: int| 1u8) + rest, false) == options_in(rest, false),
        later_options(Seq::new(n, |i: int| 1u8) + rest) == Seq::new(n, |i: int| 1u8)
            + later_options(rest),
    decreases n,
{
    let area: Seq<u8> = Seq::new(n, |i: int| 1u8) + rest;
    if n == 0 {
        assert(area =~= rest);
        assert(Seq::new(n, |i: int| 1u8) + later_options(rest) =~= later_options(rest));
    } else {
        let fewer: nat = (n - 1) as nat;
        lemma_no_operations(fewer, rest);
        assert(area.skip(1) =~= Seq::new(fewer, |i: int| 1u8) + rest);
        assert(seq![1u8] + (Seq::new(fewer, |i: int| 1u8) + later_options(rest)) =~= Seq::new(
            n,
            |i: int| 1u8,
        ) + later_options(rest));
    }
}

/// A later fragment has, in order, exactly the options that belong in every fragment, in an area of
/// the same length; and what it has, its own later fragments have too.
pub proof fn later_fragments_have_the_copied_options(area: Seq<u8>)
    ensures
        later_options(area).len() == area.len(),
        options_in(later_options(area), false) == options_in(area, true),
        later_options(later_options(area)) == later_options(area),
    decreases area.len(),
{
    let later: Seq<u8> = later_options(area);
    lemma_options_length(area);
    if starts_with_option(area) {
        let n: int = area[1] as int;
        let rest: Seq<u8> = later_options(area.skip(n));
        later_fragments_have_the_copied_options(area.skip(n));
        if area[0] >= 128 {
            assert(later[0] == area[0] && later[1] == area[1]);
            assert(later.skip(n) =~= rest);
            assert(later.take(n) =~= area.take(n));
        } else {
            lemma_no_operations(n as nat, rest);
        }
    } else if area.len() > 0 && area[0] == 1 {
        later_fragments_have_the_copied_options(area.skip(1));
        assert(later.skip(1) =~= later_options(area.skip(1)));
        assert(later[0] == 1);
    }
}

proof fn lemma_fragment_place(pkt: Seq<u8>, mtu: int, respect_df: bool, k: int)
    requires
        must_fragment(pkt, mtu, respect_df),
        0 <= k < fragments_of(pkt, mtu).len(),
    ensures
        more_fragments(fragments_of(pkt, mtu)[k]) == (k + 1 < fragments_of(pkt, mtu).len()
            || more_fragments(pkt)),
        fragment_offset(fragments_of(pkt, mtu)[k]) == (fragment_offset(pkt) + k * fragment_room(
            pkt,
            mtu,
        )) % 0x1_0000,
{
    fragment_is_well_formed(pkt, mtu, respect_df, k);
}

proof fn lemma_mod_twice(a: int, b: int)
    ensures
        (a % 0x1_0000 + b) % 0x1_0000 == (a + b) % 0x1_0000,
{
}

/// Cutting a fragment again keeps every byte in its place: the pieces say where they belong in the
/// first packet, and only the last piece of the last fragment says that nothing follows.
#[verifier::spinoff_prover]
#[verifier::rlimit(40)]
pub proof fn cutting_again_keeps_positions(
    pkt: Seq<u8>,
    mtu: int,
    respect_df: bool,
    k: int,
    next_mtu: int,
    next_df: bool,
    j: int,
)
    requires
        must_fragment(pkt, mtu, respect_df),
        0 <= k < fragments_of(pkt, mtu).len(),
        must_fragment(fragments_of(pkt, mtu)[k], next_mtu, next_df),
        0 <= j < fragments_of(fragments_of(pkt, mtu)[k], next_mtu).len(),
    ensures
        ({
            let f: Seq<u8> = fragments_of(pkt, mtu)[k];
            let g: Seq<u8> = fragments_of(f, next_mtu)[j];
            &&& fragment_offset(g) == (fragment_offset(pkt) + k * fragment_room(pkt, mtu) + j
                * fragment_room(f, next_mtu)) % 0x1_0000
            &&& more_fragments(g) == (j + 1 < fragments_of(f, next_mtu).len() || k + 1
                < fragments_of(pkt, mtu).len() || more_fragments(pkt))
        }),
{
    let f: Seq<u8> = fragments_of(pkt, mtu)[k];
    lemma_fragment_place(pkt, mtu, respect_df, k);
    lemma_fragment_place(f, next_mtu, next_df, j);
    lemma_mod_twice(
        fragment_offset(pkt) + k * fragment_room(pkt, mtu),
        j * fragment_room(f, next_mtu),
    );
}

/// No fragment is cut up again under the MTU that it was made for.
pub proof fn fragments_stay_whole(pkt: Seq<u8>, mtu: int, respect_df: bool, k: int, again_df: bool)
    requires
        must_fragment(pkt, mtu, respect_df),
        0 <= k < fragments_of(pkt, mtu).len(),
    ensures
        !must_fragment(fragments_of(pkt, mtu)[k], mtu, again_df),
{
    fragment_is_well_formed(pkt, mtu, respect_df, k);
}

/// The payloads of `frags`, one after the other.
pub open spec fn joined_payloads(frags: Seq<Seq<u8>>) -> Seq<u8>
    decreases frags.len(),
{
    if frags.len() == 0 {
        Seq::empty()
    } else {
        joined_payloads(frags.drop_last()) + payload_of(frags.last())
    }
}

proof fn lemma_joined_prefix(pkt: Seq<u8>, mtu: int, respect_df: bool, n: int)
    requires
        must_fragment(pkt, mtu, respect_df),
        0 <= n <= fragments_of(pkt, mtu).len(),
    ensures
        joined_payloads(fragments_of(pkt, mtu).take(n)) == payload_of(pkt).take(
            if n * fragment_room(pkt, mtu) <= payload_of(pkt).len() {
                n * fragment_room(pkt, mtu)
            } else {
                payload_of(pkt).len() as int
            },
        ),
    decreases n,
{
    let frags: Seq<Seq<u8>> = fragments_of(pkt, mtu);
    let room: int = fragment_room(pkt, mtu);
    let all: Seq<u8> = payload_of(pkt);
    if n == 0 {
        assert(n * room == 0) by (nonlinear_arith)
            requires
                n == 0,
        ;
        assert(frags.take(0) =~= Seq::<Seq<u8>>::empty());
        assert(all.take(0) =~= Seq::<u8>::empty());
    } else {
        lemma_joined_prefix(pkt, mtu, respect_df, n - 1);
        lemma_position(all.len() as int, room, n - 1);
        fragment_is_well_formed(pkt, mtu, respect_df, n - 1);
        assert(frags.take(n).drop_last() =~= frags.take(n - 1));
        assert(frags.take(n).last() == frags[n - 1]);
        let upto: int = if n * room <= all.len() {
            n * room
        } else {
            all.len() as int
        };
        assert(all.take(upto) =~= all.take((n - 1) * room) + fragment_payload(pkt, mtu, n - 1));
    }
}

/// Nothing is lost and nothing is added: the payloads of the fragments, in order, are the payload
/// of the packet.
#[verifier::spinoff_prover]
#[verifier::rlimit(40)]
pub proof fn fragments_carry_the_payload(pkt: Seq<u8>, mtu: int, respect_df: bool)
    requires
        must_fragment(pkt, mtu, respect_df),
    ensures
        fragments_of(pkt, mtu).len() > 0,
        joined_payloads(fragments_of(pkt, mtu)) == payload_of(pkt),
{
    let frags: Seq<Seq<u8>> = fragments_of(pkt, mtu);
    let room: int = fragment_room(pkt, mtu);
    let all: Seq<u8> = payload_of(pkt);
    let n: int = frags.len() as int;
    lemma_count(all.len() as int, room, 0);
    lemma_joined_prefix(pkt, mtu, respect_df, n);
    lemma_position(all.len() as int, room, n - 1);
    assert(frags.take(n) =~= frags);
    assert(all.take(all.len() as int) =~= all);
}

} // verus!
