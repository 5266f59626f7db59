//! What the emulator has to say back to the shell.
//!
//! Some escape sequences are questions, and a program that asks one stops
//! until the answer arrives: PSReadLine opens by asking where the cursor is
//! (`ESC[6n`) and prints nothing until told. Only the status reports are
//! answered. A Device Attributes query goes unanswered on purpose: its reply is
//! a claim about what the emulator supports, while a cursor position is a fact
//! about the screen.

use vstd::prelude::*;

use crate::text::{decimal, decimal_bytes, extend_bytes, lemma_decimal_ascii, ascii_chars, string_from_ascii};

verus! {

/// Replies owed to the shell, waiting to be written back into the pty.
#[derive(Default)]
pub struct Replies {
    pending: Vec<u8>,
}

impl View for Replies {
    type V = Seq<u8>;

    /// The bytes waiting to be written.
    closed spec fn view(&self) -> Seq<u8> {
        self.pending@
    }
}

/// A cursor position report, 1-based on the wire: `ESC [ row ; col R`, or in
/// the extended form `ESC [ ? row ; col ; 1 R` (there is one page).
pub open spec fn report_bytes(row: u16, col: u16, extended: bool) -> Seq<u8> {
    if extended {
        seq![0x1bu8, 91u8, 63u8] + decimal((row + 1) as nat) + seq![59u8] + decimal((col + 1) as nat)
            + seq![59u8, 49u8, 82u8]
    } else {
        seq![0x1bu8, 91u8] + decimal((row + 1) as nat) + seq![59u8] + decimal((col + 1) as nat) + seq![
            82u8,
        ]
    }
}

/// The answer to one unhandled CSI sequence: device status (`5n`) is answered
/// `ESC [ 0 n`, a cursor position request (`6n`, or `?6n` for the extended
/// form) with the cursor's position; anything else gets no answer.
pub open spec fn answer_bytes(i1: Option<u8>, ps: Option<u16>, c: char, cursor: (u16, u16)) -> Seq<u8> {
    if c != 'n' {
        Seq::empty()
    } else {
        match (i1, ps) {
            (None, Some(5)) => seq![0x1bu8, 91u8, 48u8, 110u8],
            (None, Some(6)) => report_bytes(cursor.0, cursor.1, false),
            (Some(63), Some(6)) => report_bytes(cursor.0, cursor.1, true),
            _ => Seq::empty(),
        }
    }
}

/// A cursor position report as bytes.
fn report_vec(row: u16, col: u16, extended: bool) -> (v: Vec<u8>)
    ensures
        v@ == report_bytes(row, col, extended),
{
    let mut v: Vec<u8> = Vec::new();
    v.push(0x1b);
    v.push(91);
    if extended {
        v.push(63);
    }
    let r = decimal_bytes(row as u64 + 1);
    extend_bytes(&mut v, r.as_slice());
    v.push(59);
    let c = decimal_bytes(col as u64 + 1);
    extend_bytes(&mut v, c.as_slice());
    if extended {
        v.push(59);
        v.push(49);
    }
    v.push(82);
    proof {
        if extended {
            assert(v@ =~= report_bytes(row, col, extended));
        } else {
            assert(v@ =~= report_bytes(row, col, extended));
        }
    }
    v
}

/// A cursor position report, in the plain (`CPR`) or extended (`DECXCPR`)
/// form. The emulator counts from zero; the wire from one.
pub fn report(row: u16, col: u16, extended: bool) -> (s: String)
    ensures
        s@ == ascii_chars(report_bytes(row, col, extended)),
{
    let v = report_vec(row, col, extended);
    proof {
        lemma_decimal_ascii((row + 1) as nat);
        lemma_decimal_ascii((col + 1) as nat);
        let d1 = decimal((row + 1) as nat);
        let d2 = decimal((col + 1) as nat);
        assert forall|i: int| 0 <= i < v@.len() implies v@[i] < 128 by {
            let off: int = if extended { 3 } else { 2 };
            if off <= i < off + d1.len() {
                assert(v@[i] == d1[i - off]);
            } else if off + d1.len() + 1 <= i < off + d1.len() + 1 + d2.len() {
                assert(v@[i] == d2[i - off - d1.len() - 1]);
            }
        }
    }
    string_from_ascii(v.as_slice())
}

impl Replies {
    /// Take everything the last `process` produced.
    pub fn take(&mut self) -> (out: Vec<u8>)
        ensures
            out@ == old(self)@,
            final(self)@ == Seq::<u8>::empty(),
    {
        let mut out: Vec<u8> = Vec::new();
        std::mem::swap(&mut out, &mut self.pending);
        out
    }

    /// Answer one CSI sequence the emulator did not handle itself, with the
    /// cursor where the question found it.
    pub fn answer(&mut self, i1: Option<u8>, ps: Option<u16>, c: char, cursor: (u16, u16))
        ensures
            final(self)@ == old(self)@ + answer_bytes(i1, ps, c, cursor),
    {
        if c != 'n' {
            assert(self.pending@ =~= old(self)@ + answer_bytes(i1, ps, c, cursor));
            return;
        }
        match (i1, ps) {
            (None, Some(5)) => {
                let mut v: Vec<u8> = Vec::new();
                v.push(0x1b);
                v.push(91);
                v.push(48);
                v.push(110);
                assert(v@ =~= seq![0x1bu8, 91u8, 48u8, 110u8]);
                extend_bytes(&mut self.pending, v.as_slice());
            },
            (None, Some(6)) => {
                let v = report_vec(cursor.0, cursor.1, false);
                extend_bytes(&mut self.pending, v.as_slice());
            },
            (Some(63), Some(6)) => {
                let v = report_vec(cursor.0, cursor.1, true);
                extend_bytes(&mut self.pending, v.as_slice());
            },
            _ => {
                assert(self.pending@ =~= old(self)@ + answer_bytes(i1, ps, c, cursor));
            },
        }
    }
}

} // verus!
