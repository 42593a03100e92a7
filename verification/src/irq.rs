//! Interrupt dispatch decisions: which handlers an interrupt calls for.
//! The port reads the interrupt registers and runs the handlers.
#![allow(non_snake_case)]
use vstd::prelude::*;

verus! {

/// The handlers an interrupt of core 0 calls for.
#[derive(Clone, Copy, Debug, PartialEq, Eq, Structural)]
pub struct IrqAction {
    /// The timer tick (source bit 3).
    pub tick: bool,
    /// The serial port (source bit 8).
    pub uart: bool,
}

/// Decodes core 0's interrupt source register: the tick handler runs for
/// bit 3, the serial port's for bit 8 (within the 19 source bits).
pub fn vApplicationIRQHandler(ulCORE0_INT_SRC: cty::uint32_t) -> (r: IrqAction)
    ensures
        r.tick == (ulCORE0_INT_SRC & 8u32 != 0u32),
        r.uart == (ulCORE0_INT_SRC & 256u32 != 0u32),
{
    let ulInterruptID: u32 = ulCORE0_INT_SRC & 0x0007FFFFu32;
    let tick = (ulInterruptID & (1u32 << 3u32)) != 0;
    let uart = (ulInterruptID & (1u32 << 8u32)) != 0;
    assert((ulInterruptID & (1u32 << 3u32) != 0u32) == (ulCORE0_INT_SRC & 8u32 != 0u32)) by (bit_vector)
        requires
            ulInterruptID == ulCORE0_INT_SRC & 0x0007FFFFu32,
    ;
    assert((ulInterruptID & (1u32 << 8u32) != 0u32) == (ulCORE0_INT_SRC & 256u32 != 0u32)) by (bit_vector)
        requires
            ulInterruptID == ulCORE0_INT_SRC & 0x0007FFFFu32,
    ;
    IrqAction { tick, uart }
}

/// Bit `j` of `p` is set.
pub open spec fn bit_set(p: u32, j: u32) -> bool {
    (p >> j) & 1u32 != 0u32
}

/// The set bits of `p` below bit `n`, highest first.
pub open spec fn set_bits_desc(p: u32, n: nat) -> Seq<u32>
    decreases n,
{
    if n == 0 {
        Seq::empty()
    } else {
        let b = (n - 1) as u32;
        (if bit_set(p, b) {
            seq![b]
        } else {
            Seq::empty()
        }) + set_bits_desc(p, (n - 1) as nat)
    }
}

/// Below `h`, the highest set bit `b` of `p` comes first, then the bits
/// below it.
proof fn lemma_set_bits_top(p: u32, h: nat, b: u32)
    requires
        b < h <= 32,
        bit_set(p, b),
        forall|j: u32| b < j < h ==> !#[trigger] bit_set(p, j),
    ensures
        set_bits_desc(p, h) == seq![b] + set_bits_desc(p, b as nat),
    decreases h,
{
    if h == b + 1 {
        assert(set_bits_desc(p, h) =~= seq![b] + set_bits_desc(p, b as nat));
    } else {
        let top = (h - 1) as u32;
        assert(!bit_set(p, top));
        lemma_set_bits_top(p, (h - 1) as nat, b);
        assert(set_bits_desc(p, h) =~= set_bits_desc(p, (h - 1) as nat));
    }
}

/// Clearing bit `b` keeps the other bits.
proof fn lemma_clear_bit(x: u32, b: u32, j: u32)
    requires
        b < 32,
        j < 32,
    ensures
        bit_set(x & !(1u32 << b), j) == (j != b && bit_set(x, j)),
{
    assert(((x & !(1u32 << b)) >> j) & 1u32 != 0u32 <==> (j != b && (x >> j) & 1u32 != 0u32)) by (bit_vector)
        requires
            b < 32,
            j < 32,
    ;
}

/// The interrupt numbers that pending mask `pending` of the range
/// starting at `base` calls for, highest first.
pub open spec fn pending_irqs(pending: u32, base: u32) -> Seq<u32> {
    set_bits_desc(pending, 32).map_values(|b: u32| (base + b) as u32)
}

/// The interrupts of the range starting at `base` that are pending in
/// `pending`, highest first: their handlers are then run in that order.
pub fn handle_range(pending: u32, base: u32) -> (r: Vec<u32>)
    requires
        base + 31 <= u32::MAX,
    ensures
        r@ == pending_irqs(pending, base),
{
    let ghost p = pending;
    let mut pending = pending;
    let mut irqs: Vec<u32> = Vec::new();
    let ghost mut h: nat = 32;
    proof {
        assert(irqs@ + set_bits_desc(p, 32).map_values(|b: u32| (base + b) as u32) =~= pending_irqs(p, base));
    }
    while pending != 0
        invariant
            base + 31 <= u32::MAX,
            h <= 32,
            forall|j: u32| h <= j < 32 ==> !#[trigger] bit_set(pending, j),
            forall|j: u32| j < h ==> #[trigger] bit_set(pending, j) == bit_set(p, j),
            irqs@ + set_bits_desc(p, h).map_values(|b: u32| (base + b) as u32) == pending_irqs(p, base),
        decreases h,
    {
        proof {
            vstd::std_specs::bits::axiom_u32_leading_zeros(pending);
        }
        let bit = 31 - pending.leading_zeros();
        let irq = base + bit;
        proof {
            assert(bit_set(pending, bit));
            assert(bit < h) by {
                if bit >= h {
                    assert(!bit_set(pending, bit));
                }
            }
            assert forall|j: u32| bit < j < h implies !#[trigger] bit_set(p, j) by {
                assert(bit_set(pending, j) == bit_set(p, j));
                assert(32 - pending.leading_zeros() <= j < 32);
                assert((pending >> j) & 1u32 == 0u32);
            }
            lemma_set_bits_top(p, h, bit);
            let m = |b: u32| (base + b) as u32;
            assert((seq![bit] + set_bits_desc(p, bit as nat)).map_values(m) =~= seq![irq] + set_bits_desc(
                p,
                bit as nat,
            ).map_values(m));
        }
        irqs.push(irq);
        let ghost old_pending = pending;
        pending = pending & !(1u32 << bit);
        proof {
            assert forall|j: u32| bit <= j < 32 implies !#[trigger] bit_set(pending, j) by {
                lemma_clear_bit(old_pending, bit, j);
                if j > bit {
                    assert(32 - old_pending.leading_zeros() <= j < 32);
                    assert((old_pending >> j) & 1u32 == 0u32);
                }
            }
            assert forall|j: u32| j < bit implies #[trigger] bit_set(pending, j) == bit_set(p, j) by {
                lemma_clear_bit(old_pending, bit, j);
                assert(bit_set(old_pending, j) == bit_set(p, j));
            }
            let m = |b: u32| (base + b) as u32;
            assert(irqs@ + set_bits_desc(p, bit as nat).map_values(m) =~= irqs@.drop_last() + (seq![irq]
                + set_bits_desc(p, bit as nat).map_values(m)));
            h = bit as nat;
        }
    }
    proof {
        assert forall|j: u32| j < h implies !#[trigger] bit_set(p, j) by {
            assert(bit_set(pending, j) == bit_set(p, j));
            assert((0u32 >> j) & 1u32 == 0u32) by (bit_vector);
        }
        assert(set_bits_desc(p, h) =~= Seq::<u32>::empty()) by {
            lemma_no_bits(p, h);
        }
        assert(irqs@ =~= pending_irqs(p, base));
    }
    irqs
}

/// The interrupts the controller's pending registers call for, in the
/// order their handlers run: the pending ones of the first range (numbers
/// from 0) when bit 8 of the basic pending register is set, then those of
/// the second range (numbers from 32) when bit 9 is set.
pub fn irq_handler(basic_pending: u32, pending_1: u32, pending_2: u32) -> (r: Vec<u32>)
    ensures
        r@ == (if basic_pending & 0x100u32 != 0u32 {
            pending_irqs(pending_1, 0)
        } else {
            Seq::empty()
        }) + (if basic_pending & 0x200u32 != 0u32 {
            pending_irqs(pending_2, 32)
        } else {
            Seq::empty()
        }),
{
    let basic: u32 = basic_pending & 0x0000_0300u32;
    assert((basic & 0x100u32 != 0u32) == (basic_pending & 0x100u32 != 0u32)) by (bit_vector)
        requires
            basic == basic_pending & 0x0000_0300u32,
    ;
    assert((basic & 0x200u32 != 0u32) == (basic_pending & 0x200u32 != 0u32)) by (bit_vector)
        requires
            basic == basic_pending & 0x0000_0300u32,
    ;
    let mut irqs: Vec<u32> = Vec::new();
    if basic & 0x100u32 != 0 {
        irqs = handle_range(pending_1, 0);
    }
    if basic & 0x200u32 != 0 {
        let mut second = handle_range(pending_2, 32);
        irqs.append(&mut second);
    }
    proof {
        assert(irqs@ =~= (if basic_pending & 0x100u32 != 0u32 {
            pending_irqs(pending_1, 0)
        } else {
            Seq::empty()
        }) + (if basic_pending & 0x200u32 != 0u32 {
            pending_irqs(pending_2, 32)
        } else {
            Seq::empty()
        }));
    }
    irqs
}

/// No set bit below `h` means no bits listed.
proof fn lemma_no_bits(p: u32, h: nat)
    requires
        h <= 32,
        forall|j: u32| j < h ==> !#[trigger] bit_set(p, j),
    ensures
        set_bits_desc(p, h) == Seq::<u32>::empty(),
    decreases h,
{
    if h > 0 {
        assert(!bit_set(p, (h - 1) as u32));
        lemma_no_bits(p, (h - 1) as nat);
        assert(set_bits_desc(p, h) =~= Seq::<u32>::empty());
    }
}

/// The pending interrupts come highest first, each of them once: every one
/// is `base` plus a set bit of the mask, and every set bit is listed.
pub proof fn law_pending_order(p: u32, n: nat)
    requires
        n <= 32,
    ensures
        forall|i: int, j: int|
            0 <= i < j < set_bits_desc(p, n).len() ==> set_bits_desc(p, n)[i] > set_bits_desc(p, n)[j],
        forall|i: int|
            0 <= i < set_bits_desc(p, n).len() ==> set_bits_desc(p, n)[i] < n && bit_set(
                p,
                #[trigger] set_bits_desc(p, n)[i],
            ),
        forall|b: u32| b < n && bit_set(p, b) ==> set_bits_desc(p, n).contains(b),
    decreases n,
{
    if n > 0 {
        let m = (n - 1) as nat;
        law_pending_order(p, m);
        let t = set_bits_desc(p, m);
        let b = m as u32;
        if bit_set(p, b) {
            assert(set_bits_desc(p, n) =~= seq![b] + t);
            assert forall|x: u32| x < n && bit_set(p, x) implies set_bits_desc(p, n).contains(x) by {
                if x == b {
                    assert(set_bits_desc(p, n)[0] == b);
                } else {
                    assert(t.contains(x));
                    let k = choose|k: int| 0 <= k < t.len() && t[k] == x;
                    assert(set_bits_desc(p, n)[k + 1] == x);
                }
            }
        } else {
            assert(set_bits_desc(p, n) =~= t);
        }
    }
}

} // verus!
