use vstd::prelude::*;
use crate::system::emulator::Keys;

verus! {

/// Applies a keyboard event to key `i` of the keypad: a press holds it, a release
/// frees it, and with neither it stays as it was. Every other key is unchanged.
pub fn key_event_check(keys: &mut Keys, i: usize, pressed: bool, released: bool)
    requires
        i < 16,
    ensures
        final(keys)@ == old(keys)@.update(
            i as int,
            if pressed {
                true
            } else if released {
                false
            } else {
                old(keys)@[i as int]
            },
        ),
{
    if pressed {
        keys[i] = true;
    } else if released {
        keys[i] = false;
    }
    proof {
        assert(keys@ =~= old(keys)@.update(
            i as int,
            if pressed {
                true
            } else if released {
                false
            } else {
                old(keys)@[i as int]
            },
        ));
    }
}

/// The keypad key that each keyboard key stands for. Keyboard keys are numbered row
/// by row over the block `1 2 3 4`, `Q W E R`, `A S D F`, `Z X C V`, which stands for
/// the keypad `1 2 3 C`, `4 5 6 D`, `7 8 9 E`, `A 0 B F`.
pub open spec fn keypad_layout() -> Seq<u8> {
    seq![0x1u8, 0x2, 0x3, 0xC, 0x4, 0x5, 0x6, 0xD, 0x7, 0x8, 0x9, 0xE, 0xA, 0x0, 0xB, 0xF]
}

/// The keypad key for keyboard key number `position` (see `keypad_layout`).
pub fn keypad_key(position: usize) -> (k: usize)
    requires
        position < 16,
    ensures
        k == keypad_layout()[position as int],
{
    match position {
        0 => 0x1,
        1 => 0x2,
        2 => 0x3,
        3 => 0xC,
        4 => 0x4,
        5 => 0x5,
        6 => 0x6,
        7 => 0xD,
        8 => 0x7,
        9 => 0x8,
        10 => 0x9,
        11 => 0xE,
        12 => 0xA,
        13 => 0x0,
        14 => 0xB,
        _ => 0xF,
    }
}

/// The keyboard key number that stands for keypad key `k`.
pub open spec fn keyboard_position(k: int) -> int {
    if k == 0 { 13 }
    else if k <= 3 { k - 1 }
    else if k <= 6 { k }
    else if k <= 9 { k + 1 }
    else if k == 0xA { 12 }
    else if k == 0xB { 14 }
    else if k == 0xC { 3 }
    else if k == 0xD { 7 }
    else if k == 0xE { 11 }
    else { 15 }
}

/// Every keypad key is stood for by exactly one keyboard key: the layout is a
/// one-to-one map of the sixteen keyboard keys onto the sixteen keypad keys.
pub proof fn lemma_keypad_layout_is_one_to_one()
    ensures
        keypad_layout().len() == 16,
        forall|p: int| 0 <= p < 16 ==> #[trigger] keypad_layout()[p] < 16,
        forall|p: int, q: int|
            0 <= p < 16 && 0 <= q < 16 && p != q ==> #[trigger] keypad_layout()[p]
                != #[trigger] keypad_layout()[q],
        forall|k: int|
            0 <= k < 16 ==> 0 <= #[trigger] keyboard_position(k) < 16 && keypad_layout()[keyboard_position(
                k,
            )] == k,
{
    let l = keypad_layout();
    assert(l[0] == 1 && l[1] == 2 && l[2] == 3 && l[3] == 0xC && l[4] == 4 && l[5] == 5 && l[6] == 6
        && l[7] == 0xD && l[8] == 7 && l[9] == 8 && l[10] == 9 && l[11] == 0xE && l[12] == 0xA
        && l[13] == 0 && l[14] == 0xB && l[15] == 0xF);
}

} // verus!
