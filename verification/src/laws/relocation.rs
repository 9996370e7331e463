//! The kernel's own image: which parts of it may be written or run, and which
//! words move with it.

use crate::bits;
use crate::bytes;
use crate::laws::{le, lemma_le};
use crate::pe;
use crate::pe::{Perm, Section};
use vstd::prelude::*;

verus! {

/// Where the second header begins.
pub open spec fn header(b: Seq<u8>) -> int {
    le(b, 0x3C, 4)
}

/// The image starts with "MZ", has its second header, which starts with "PE",
/// and is for this processor.
pub open spec fn recognised(b: Seq<u8>) -> bool {
    &&& b.len() >= 0x40
    &&& le(b, 0, 2) == 0x5A4D
    &&& header(b) + 6 <= b.len()
    &&& le(b, header(b), 4) == 0x4550
    &&& le(b, header(b) + 4, 2) == 0x8664
}

/// Where the headers of the sections begin.
pub open spec fn sections_at(b: Seq<u8>) -> int {
    header(b) + 24 + le(b, header(b) + 20, 2)
}

/// The name of a section starts with these bytes, and zeros follow.
pub open spec fn named(b: Seq<u8>, at: int, name: Seq<u8>) -> bool {
    forall|i: int| 0 <= i < 8 ==> #[trigger] b[at + i] == (if i < name.len() {
        name[i]
    } else {
        0
    })
}

/// The section's header at `at`: the pages that it takes of an image at `base`,
/// and what may be done there. ".text" is run, ".rdata" is read, any other is
/// written.
pub open spec fn section_is(s: Section, b: Seq<u8>, base: int, at: int) -> bool {
    let start = base + le(b, at + 12, 4);
    let end = start + le(b, at + 8, 4);
    &&& s.start % 4096 == 0 && s.end % 4096 == 0
    &&& s.start <= start < s.start + 4096
    &&& s.end - 4096 < end <= s.end
    &&& named(b, at, seq![0x2Eu8, 0x74u8, 0x65u8, 0x78u8, 0x74u8]) ==> s.perm == Perm::Rx
    &&& named(b, at, seq![0x2Eu8, 0x72u8, 0x64u8, 0x61u8, 0x74u8, 0x61u8]) ==> s.perm == Perm::Ro
    &&& !named(b, at, seq![0x2Eu8, 0x74u8, 0x65u8, 0x78u8, 0x74u8]) && !named(
        b,
        at,
        seq![0x2Eu8, 0x72u8, 0x64u8, 0x61u8, 0x74u8, 0x61u8],
    ) ==> s.perm == Perm::Rw
}

proof fn lemma_names(b: Seq<u8>, at: int)
    requires
        0 <= at,
        at + 8 <= b.len(),
    ensures
        pe::name_is(b, at, pe::text_name()) == named(
            b,
            at,
            seq![0x2Eu8, 0x74u8, 0x65u8, 0x78u8, 0x74u8],
        ),
        pe::name_is(b, at, pe::rdata_name()) == named(
            b,
            at,
            seq![0x2Eu8, 0x72u8, 0x64u8, 0x61u8, 0x74u8, 0x61u8],
        ),
        !(named(b, at, seq![0x2Eu8, 0x74u8, 0x65u8, 0x78u8, 0x74u8]) && named(
            b,
            at,
            seq![0x2Eu8, 0x72u8, 0x64u8, 0x61u8, 0x74u8, 0x61u8],
        )),
{
    let w = b.subrange(at, at + 8);
    assert(forall|i: int| 0 <= i < 8 ==> #[trigger] w[i] == b[at + i]);
    let t = seq![0x2Eu8, 0x74u8, 0x65u8, 0x78u8, 0x74u8];
    let r = seq![0x2Eu8, 0x72u8, 0x64u8, 0x61u8, 0x74u8, 0x61u8];
    if named(b, at, t) {
        assert(b[at + 1] == 0x74);
        assert(w =~= pe::text_name());
    }
    if named(b, at, r) {
        assert(b[at + 1] == 0x72);
        assert(w =~= pe::rdata_name());
    }
    if pe::name_is(b, at, pe::text_name()) {
        assert forall|i: int| 0 <= i < 8 implies #[trigger] b[at + i] == (if i < t.len() {
            t[i]
        } else {
            0
        }) by {
            assert(w[i] == pe::text_name()[i]);
        }
    }
    if pe::name_is(b, at, pe::rdata_name()) {
        assert forall|i: int| 0 <= i < 8 implies #[trigger] b[at + i] == (if i < r.len() {
            r[i]
        } else {
            0
        }) by {
            assert(w[i] == pe::rdata_name()[i]);
        }
    }
}

proof fn lemma_section(b: Seq<u8>, base: int, at: int)
    requires
        0 <= at,
        at + 40 <= b.len(),
        0 <= base <= 0x7FFF_FFFF_FFFF_FFFF,
    ensures
        section_is(pe::section_at(b, base, at), b, base, at),
{
    lemma_le(b, at + 8);
    lemma_le(b, at + 12);
    lemma_names(b, at);
    let start = base + le(b, at + 12, 4);
    let end = start + le(b, at + 8, 4);
    bits::lemma_ceil_div(end, 4096);
}

/// One of the sections is that of the header at `at`.
pub open spec fn covers(s: Seq<Section>, b: Seq<u8>, base: int, at: int) -> bool {
    exists|k: int| 0 <= k < s.len() && section_is(#[trigger] s[k], b, base, at)
}

proof fn lemma_sections(b: Seq<u8>, base: int, table: int, i: int, n: int)
    requires
        0 <= table,
        0 <= i,
        0 <= base <= 0x7FFF_FFFF_FFFF_FFFF,
    ensures
        forall|h: int|
            i <= h < n && table + n * 40 <= b.len() && le(b, table + h * 40 + 8, 4) != 0
                ==> covers(
                pe::sections_from(b, base, table, i, n),
                b,
                base,
                #[trigger] (table + h * 40),
            ),
    decreases n - i,
{
    let s = pe::sections_from(b, base, table, i, n);
    if i < n && table + n * 40 <= b.len() {
        lemma_sections(b, base, table, i + 1, n);
        let rest = pe::sections_from(b, base, table, i + 1, n);
        lemma_le(b, table + i * 40 + 8);
        lemma_section(b, base, table + i * 40);
        assert forall|h: int|
            i <= h < n && le(b, table + h * 40 + 8, 4) != 0 implies covers(
            s,
            b,
            base,
            #[trigger] (table + h * 40),
        ) by {
            if h == i {
                assert(s[0] == pe::section_at(b, base, table + i * 40));
            } else {
                let at = table + h * 40;
                assert(covers(rest, b, base, at));
                let k = choose|k: int| 0 <= k < rest.len() && section_is(#[trigger] rest[k], b, base, at);
                if le(b, table + i * 40 + 8, 4) == 0 {
                    assert(s == rest);
                    assert(section_is(s[k], b, base, at));
                } else {
                    assert(s[k + 1] == rest[k]);
                }
            }
        }
    }
}

/// The section is that of one of the first `n` headers, which has a size.
pub open spec fn is_one(s: Section, b: Seq<u8>, base: int, table: int, n: int) -> bool {
    exists|h: int|
        0 <= h < n && table + h * 40 + 40 <= b.len() && #[trigger] of_header(s, b, base, table, h)
}

pub open spec fn of_header(s: Section, b: Seq<u8>, base: int, table: int, h: int) -> bool {
    le(b, table + h * 40 + 8, 4) != 0 && section_is(s, b, base, table + h * 40)
}

proof fn lemma_no_more(b: Seq<u8>, base: int, table: int, i: int, n: int)
    requires
        0 <= table,
        0 <= i,
        0 <= base <= 0x7FFF_FFFF_FFFF_FFFF,
    ensures
        forall|k: int|
            0 <= k < pe::sections_from(b, base, table, i, n).len() ==> is_one(
                #[trigger] pe::sections_from(b, base, table, i, n)[k],
                b,
                base,
                table,
                n,
            ),
    decreases n - i,
{
    let s = pe::sections_from(b, base, table, i, n);
    if i < n && table + i * 40 + 40 <= b.len() {
        lemma_no_more(b, base, table, i + 1, n);
        let rest = pe::sections_from(b, base, table, i + 1, n);
        lemma_le(b, table + i * 40 + 8);
        lemma_section(b, base, table + i * 40);
        assert forall|k: int| 0 <= k < s.len() implies is_one(
            #[trigger] s[k],
            b,
            base,
            table,
            n,
        ) by {
            if le(b, table + i * 40 + 8, 4) == 0 {
                assert(s == rest);
            } else if k == 0 {
                assert(of_header(s[0], b, base, table, i));
            } else {
                assert(s[k] == rest[k - 1]);
            }
        }
    }
}

/// The sections of an image are those of its headers: of the first twelve, each
/// that has a size, and no other. Without a header that is recognised, or
/// without a section, there are none.
#[verifier::rlimit(40)]
pub proof fn law_sections_are_the_headers(
    image: &[u8],
    base: u64,
    r: Result<Vec<Section>, &'static str>,
    h: int,
)
    requires
        base <= 0x7FFF_FFFF_FFFF_FFFF,
        pe::sections_parsed(image, base, r),
    ensures
        ({
            let b = image@;
            let count = le(b, header(b) + 6, 2);
            let n = if count <= 12 {
                count
            } else {
                12
            };
            &&& r is Ok ==> recognised(b)
            &&& r matches Ok(v) ==> {
                &&& 0 < v@.len()
                &&& forall|k: int|
                    0 <= k < v@.len() ==> is_one(
                        #[trigger] v@[k],
                        b,
                        base as int,
                        sections_at(b),
                        n,
                    )
                &&& 0 <= h < n && sections_at(b) + n * 40 <= b.len() && le(
                    b,
                    sections_at(b) + h * 40 + 8,
                    4,
                ) != 0 ==> covers(v@, b, base as int, sections_at(b) + h * 40)
            }
        }),
{
    let b = image@;
    lemma_le(b, 0);
    lemma_le(b, 0x3C);
    lemma_le(b, header(b));
    lemma_le(b, header(b) + 4);
    lemma_le(b, header(b) + 6);
    lemma_le(b, header(b) + 20);
    if r is Ok {
        let count = le(b, header(b) + 6, 2);
        let n = if count <= 12 {
            count
        } else {
            12
        };
        lemma_no_more(b, base as int, sections_at(b), 0, n);
        lemma_sections(b, base as int, sections_at(b), 0, n);
        assert(pe::sections_of(b, base as int)->Ok_0 == pe::sections_from(
            b,
            base as int,
            sections_at(b),
            0,
            n,
        ));
    }
}

/// Where block `k` of the relocation table begins: each tells how long it is.
pub open spec fn block(b: Seq<u8>, rva: int, k: nat) -> int
    decreases k,
{
    if k == 0 {
        0
    } else {
        let before = block(b, rva, (k - 1) as nat);
        before + le(b, rva + before + 4, 4)
    }
}

/// Entry `i` of block `k` names the word at `slot`: its type is 10, and its
/// low twelve bits count from the block's page.
pub open spec fn names(b: Seq<u8>, rva: int, size: int, k: nat, i: int, slot: int) -> bool {
    let at = rva + block(b, rva, k);
    let e = le(b, at + 8 + 2 * i, 2);
    &&& block(b, rva, k) + 8 <= size
    &&& 0 <= i < (le(b, at + 4, 4) - 8) / 2
    &&& e / 4096 == 10
    &&& slot == le(b, at, 4) + e % 4096
}

/// The table names the word at `slot`.
pub open spec fn moves(b: Seq<u8>, rva: int, size: int, slot: int) -> bool {
    exists|k: nat, i: int| #[trigger] names(b, rva, size, k, i, slot)
}

proof fn lemma_block_slots(b: Seq<u8>, first: int, page: int, i: int, m: int, slot: int)
    ensures
        pe::block_slots(b, first, page, i, m).contains(slot) ==> exists|j: int|
            i <= j < m && #[trigger] le(b, first + 2 * j, 2) / 4096 == 10 && slot == page + le(
                b,
                first + 2 * j,
                2,
            ) % 4096,
        forall|j: int|
            i <= j < m && #[trigger] le(b, first + 2 * j, 2) / 4096 == 10 && slot == page + le(
                b,
                first + 2 * j,
                2,
            ) % 4096 ==> pe::block_slots(b, first, page, i, m).contains(slot),
    decreases m - i,
{
    if i < m {
        lemma_block_slots(b, first, page, i + 1, m, slot);
        lemma_le(b, first + i * 2);
        let s = pe::block_slots(b, first, page, i, m);
        let rest = pe::block_slots(b, first, page, i + 1, m);
        let e = le(b, first + 2 * i, 2);
        if e / 4096 == 10 {
            assert(s == seq![page + e % 4096] + rest);
            assert(s[0] == page + e % 4096);
            if s.contains(slot) {
                let x = choose|x: int| 0 <= x < s.len() && s[x] == slot;
                if x > 0 {
                    assert(rest[x - 1] == slot);
                }
            }
            if rest.contains(slot) {
                let x = choose|x: int| 0 <= x < rest.len() && rest[x] == slot;
                assert(s[x + 1] == slot);
            }
        }
    }
}

proof fn lemma_table_slots(b: Seq<u8>, rva: int, size: int, k: nat, slot: int)
    requires
        pe::blocks_ok(b, rva, size, block(b, rva, k)),
    ensures
        pe::table_slots(b, rva, size, block(b, rva, k)).contains(slot) ==> exists|j: nat, i: int|
            #[trigger] names(b, rva, size, j, i, slot),
        forall|j: nat, i: int|
            j >= k && #[trigger] names(b, rva, size, j, i, slot) ==> pe::table_slots(
                b,
                rva,
                size,
                block(b, rva, k),
            ).contains(slot),
    decreases size - block(b, rva, k),
{
    let off = block(b, rva, k);
    lemma_le(b, rva + off);
    lemma_le(b, rva + off + 4);
    let len = le(b, rva + off + 4, 4);
    if off + 8 <= size {
        let first = rva + off + 8;
        let page = le(b, rva + off, 4);
        let here = pe::block_slots(b, first, page, 0, (len - 8) / 2);
        assert(block(b, rva, k + 1) == off + len);
        let rest = pe::table_slots(b, rva, size, block(b, rva, k + 1));
        let all = pe::table_slots(b, rva, size, off);
        assert(all == here + rest);
        lemma_table_slots(b, rva, size, k + 1, slot);
        lemma_block_slots(b, first, page, 0, (len - 8) / 2, slot);
        if all.contains(slot) {
            let x = choose|x: int| 0 <= x < all.len() && all[x] == slot;
            if x < here.len() {
                assert(here[x] == slot);
                let j = choose|j: int|
                    0 <= j < (len - 8) / 2 && #[trigger] le(b, first + 2 * j, 2) / 4096 == 10
                        && slot == page + le(b, first + 2 * j, 2) % 4096;
                assert(names(b, rva, size, k, j, slot));
            } else {
                assert(rest[x - here.len()] == slot);
            }
        }
        assert forall|j: nat, i: int|
            j >= k && #[trigger] names(b, rva, size, j, i, slot) implies all.contains(slot) by {
            if j == k {
                assert(le(b, first + 2 * i, 2) / 4096 == 10);
                assert(here.contains(slot));
                let x = choose|x: int| 0 <= x < here.len() && here[x] == slot;
                assert(all[x] == slot);
            } else {
                assert(rest.contains(slot));
                let x = choose|x: int| 0 <= x < rest.len() && rest[x] == slot;
                assert(all[here.len() + x] == slot);
            }
        }
    } else {
        assert forall|j: nat, i: int| j >= k implies !#[trigger] names(
            b,
            rva,
            size,
            j,
            i,
            slot,
        ) by {
            lemma_later(b, rva, k, j);
        }
    }
}

proof fn lemma_later(b: Seq<u8>, rva: int, k: nat, j: nat)
    requires
        k <= j,
    ensures
        block(b, rva, k) <= block(b, rva, j),
    decreases j,
{
    if k < j {
        lemma_later(b, rva, k, (j - 1) as nat);
        lemma_le(b, rva + block(b, rva, (j - 1) as nat) + 4);
    }
}

/// Where the relocation table lies, and how long it is.
pub open spec fn table(b: Seq<u8>) -> (int, int) {
    (le(b, header(b) + 176, 4), le(b, header(b) + 180, 4))
}

proof fn lemma_table(b: Seq<u8>)
    requires
        pe::reloc_table(b) is Ok,
    ensures
        recognised(b),
        pe::reloc_table(b) == Ok::<(int, int), &'static str>(table(b)),
{
    lemma_le(b, 0);
    lemma_le(b, 0x3C);
    lemma_le(b, header(b));
    lemma_le(b, header(b) + 4);
    lemma_le(b, header(b) + 176);
    lemma_le(b, header(b) + 180);
}

/// The words that the table names do not overlap.
pub open spec fn apart(b: Seq<u8>) -> bool {
    let s = pe::slots_of(b);
    forall|x: int, y: int|
        0 <= x < s.len() && 0 <= y < s.len() && x != y ==> #[trigger] s[x] + 8 <= #[trigger] s[y]
            || s[y] + 8 <= s[x]
}

proof fn lemma_moved(b: Seq<u8>, slot: int, delta: int)
    requires
        pe::relocatable(b),
        apart(b),
        moves(b, table(b).0, table(b).1, slot),
    ensures
        bytes::le64_at(pe::shifted(b, pe::slots_of(b), delta), slot) == (bytes::le64_at(b, slot)
            + delta) % 0x1_0000_0000_0000_0000,
{
    let (rva, size) = table(b);
    let slots = pe::slots_of(b);
    lemma_table(b);
    assert(block(b, rva, 0) == 0);
    lemma_table_slots(b, rva, size, 0, slot);
    let (k, i) = choose|k: nat, i: int| #[trigger] names(b, rva, size, k, i, slot);
    assert(names(b, rva, size, k, i, slot));
    assert(slots.contains(slot));
    let x = choose|x: int| 0 <= x < slots.len() && slots[x] == slot;
    assert forall|y: int| 0 <= y < slots.len() implies 0 <= (#[trigger] slots[y]) && slots[y] + 8
        <= b.len() by {
        assert(pe::slot_ok(b, slots[y]));
    }
    pe::law_slot_moves(b, slots, delta, x);
}

/// When the image moves, each word that the table names moves with it. The
/// table lies where the headers say.
#[verifier::rlimit(40)]
pub proof fn law_named_words_move(
    v0: Vec<u8>,
    v1: Vec<u8>,
    delta: u64,
    r: Result<(usize, usize), &'static str>,
    slot: int,
)
    requires
        pe::relocatable(v0@),
        pe::relocations_applied(&v0, &v1, delta, r),
        apart(v0@),
    ensures
        r is Ok,
        recognised(v0@),
        moves(v0@, table(v0@).0, table(v0@).1, slot) ==> le(v1@, slot, 8) == (le(v0@, slot, 8)
            + delta) % 0x1_0000_0000_0000_0000,
{
    lemma_table(v0@);
    if moves(v0@, table(v0@).0, table(v0@).1, slot) {
        lemma_moved(v0@, slot, delta as int);
        lemma_le(v0@, slot);
        lemma_le(v1@, slot);
    }
}

/// When the image moves, every byte stays that is in no word that the table
/// names.
#[verifier::rlimit(40)]
pub proof fn law_other_bytes_stay(
    v0: Vec<u8>,
    v1: Vec<u8>,
    delta: u64,
    r: Result<(usize, usize), &'static str>,
    at: int,
)
    requires
        pe::relocatable(v0@),
        pe::relocations_applied(&v0, &v1, delta, r),
        0 <= at < v0@.len(),
        forall|s: int| #[trigger]
            moves(v0@, table(v0@).0, table(v0@).1, s) ==> !(s <= at < s + 8),
    ensures
        v1@.len() == v0@.len(),
        v1@[at] == v0@[at],
{
    let b = v0@;
    let (rva, size) = table(b);
    let slots = pe::slots_of(b);
    lemma_table(b);
    assert(block(b, rva, 0) == 0);
    assert forall|y: int| 0 <= y < slots.len() implies !((#[trigger] slots[y]) <= at < slots[y]
        + 8) by {
        lemma_table_slots(b, rva, size, 0, slots[y]);
        assert(slots.contains(slots[y]));
        assert(moves(b, rva, size, slots[y]));
    }
    pe::law_only_slots_change(b, slots, delta as int, at);
}

} // verus!
