//! Terminal restore and enter sequences.
//!
//! While presenting, the program owns the terminal (raw mode, alternate
//! screen, placed images, hidden cursor). Restoring writes, in order: a hard
//! delete of every image (Kitty `a=d,d=A`), the cursor shown again
//! (`CSI ?25h`) and the alternate screen left (`CSI ?1049l`). Leaving raw mode
//! is process state and belongs to the shell.
use vstd::prelude::*;
use crate::cell_sink::enter_seq;
use crate::encode::push_bytes;

verus! {

/// `ESC _ G a=d,d=A,q=1 ESC \`: delete every image and its data.
pub open spec fn delete_all_images_seq() -> Seq<u8> {
    seq![27u8, 95u8, 71u8, 97u8, 61u8, 100u8, 44u8, 100u8, 61u8, 65u8, 44u8, 113u8, 61u8, 49u8, 27u8, 92u8]
}

/// `ESC [ ? 25 h`: show the cursor.
pub open spec fn show_cursor_seq() -> Seq<u8> {
    seq![27u8, 91u8, 63u8, 50u8, 53u8, 104u8]
}

/// `ESC [ ? 1049 l`: leave the alternate screen.
pub open spec fn leave_alt_screen_seq() -> Seq<u8> {
    seq![27u8, 91u8, 63u8, 49u8, 48u8, 52u8, 57u8, 108u8]
}

/// Writes the restore sequence: delete every image, show the cursor, leave
/// the alternate screen, in that order.
pub fn restore_sequence(sink: &mut Vec<u8>)
    ensures
        final(sink)@ == old(sink)@ + delete_all_images_seq() + show_cursor_seq() + leave_alt_screen_seq(),
{
    push_bytes(
        sink,
        &[27u8, 95u8, 71u8, 97u8, 61u8, 100u8, 44u8, 100u8, 61u8, 65u8, 44u8, 113u8, 61u8, 49u8, 27u8, 92u8],
    );
    push_bytes(sink, &[27u8, 91u8, 63u8, 50u8, 53u8, 104u8]);
    push_bytes(sink, &[27u8, 91u8, 63u8, 49u8, 48u8, 52u8, 57u8, 108u8]);
}

/// Writes the counterpart of [`restore_sequence`]: enter the alternate
/// screen, then hide the cursor.
pub fn enter_sequence(sink: &mut Vec<u8>)
    ensures
        final(sink)@ == old(sink)@ + enter_seq(),
{
    let ghost before = sink@;
    push_bytes(sink, &[27u8, 91u8, 63u8, 49u8, 48u8, 52u8, 57u8, 104u8]);
    push_bytes(sink, &[27u8, 91u8, 63u8, 50u8, 53u8, 108u8]);
    proof {
        assert(sink@ =~= before + enter_seq());
    }
}

} // verus!
