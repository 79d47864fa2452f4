//! Console output: the byte sink is a collaborator, reached through trusted
//! wrappers; the decisions around it are verified.

use std::io::Read;
use std::io::Write;

use vstd::prelude::*;

verus! {

/// Relies on std::io::Write via the write! macro: sends the bytes of `s` to
/// the standard output sink. Nothing is promised of the sink's state.
#[verifier::external_body]
pub fn stdout_puts(s: &str) {
    let _ = write!(std::io::stdout(), "{}", s);
}

/// Relies on std::io::Write via the write! macro: sends the bytes of `s` to
/// the standard error sink. Nothing is promised of the sink's state.
#[verifier::external_body]
pub fn stderr_puts(s: &str) {
    let _ = write!(std::io::stderr(), "{}", s);
}

/// Print a string on the console.
pub fn print(s: &str) {
    stdout_puts(s);
}

/// Print a string on the error console.
pub fn error_print(s: &str) {
    stderr_puts(s);
}

/// Relies on std::io::Read: one byte from standard input; a closed input
/// reads as a newline. Nothing is promised of the byte.
#[verifier::external_body]
fn getchar() -> u8 {
    let mut b = [0u8; 1];
    match std::io::stdin().read_exact(&mut b) {
        Ok(_) => b[0],
        Err(_) => b'\n',
    }
}

/// Relies on core::str::from_utf8: whether the bytes are well-formed UTF-8,
/// and if so sends them to the standard output sink.
#[verifier::external_body]
fn stdout_put_bytes_if_utf8(buf: &Vec<u8>) -> (r: bool) {
    match core::str::from_utf8(buf.as_slice()) {
        Ok(s) => {
            let _ = write!(std::io::stdout(), "{}", s);
            true
        },
        Err(_) => false,
    }
}

/// Relies on core::str::from_utf8 and std::io::Write: sends the bytes to
/// the standard error sink, as text when they are well-formed UTF-8 and as
/// decimal byte values otherwise.
#[verifier::external_body]
fn stderr_put_bytes(buf: &Vec<u8>) {
    match core::str::from_utf8(buf.as_slice()) {
        Ok(s) => {
            let _ = write!(std::io::stderr(), "{}", s);
        },
        Err(_) => {
            for b in buf.iter() {
                let _ = write!(std::io::stderr(), "{} ", b);
            }
        },
    }
}

/// The bytes the raw console echoes for one input byte: a delete key is
/// echoed as backspace, blank, backspace, so the deleted character vanishes
/// from the terminal; everything else echoes as itself.
pub fn echo_translation(c: u8) -> (r: Vec<u8>)
    ensures
        c == 127 ==> r@ == seq![8u8, 32u8, 8u8],
        c != 127 ==> r@ == seq![c],
{
    let mut out: Vec<u8> = Vec::new();
    if c == 127 {
        out.push(8);
        out.push(32);
        out.push(8);
        proof {
            assert(out@ =~= seq![8u8, 32u8, 8u8]);
        }
    } else {
        out.push(c);
        proof {
            assert(out@ =~= seq![c]);
        }
    }
    out
}

/// The standard input stream.
pub struct Stdin;

/// The standard output stream.
pub struct Stdout;

/// The error output stream; it prints like the standard one but does not
/// share its lock.
pub struct Stderr;

impl Stdin {
    /// Read one character into the front of `buf`, skipping the byte values
    /// the console treats as noise; an empty buffer reads nothing, and a
    /// long enough run of noise makes the read give up empty-handed.
    pub fn read(&self, buf: &mut Vec<u8>) -> (r: Option<usize>)
        ensures
            final(buf)@.len() == old(buf)@.len(),
            forall|k: int| 1 <= k < old(buf)@.len() ==> final(buf)@[k] == old(buf)@[k],
            old(buf)@.len() == 0 ==> r == Some(0usize) && final(buf)@ == old(buf)@,
            old(buf)@.len() > 0 ==> r == Some(0usize) && final(buf)@ == old(buf)@ || ({
                &&& r == Some(1usize)
                &&& final(buf)@[0] != 0
                &&& final(buf)@[0] != 255
            }),
    {
        if buf.len() == 0 {
            return Some(0);
        }
        let mut tries: usize = 0;
        while tries < 0x10000
            invariant
                buf@ == old(buf)@,
                buf@.len() > 0,
            decreases 0x10000 - tries,
        {
            let c = getchar();
            if c != 0 && c != 255 {
                buf.set(0, c);
                return Some(1);
            }
            tries = tries + 1;
        }
        Some(0)
    }

    /// The input stream cannot be written.
    pub fn write(&self, buf: &Vec<u8>) -> (r: Option<usize>)
        ensures
            r is None,
    {
        let _ = buf;
        None
    }
}

impl Stdout {
    /// The output stream cannot be read.
    pub fn read(&self, buf: &mut Vec<u8>) -> (r: Option<usize>)
        ensures
            r is None,
            *final(buf) == *old(buf),
    {
        None
    }

    /// Write the bytes as UTF-8 text; anything else is refused.
    pub fn write(&self, buf: &Vec<u8>) -> (r: Option<usize>)
        ensures
            r is Some ==> r->0 == buf@.len(),
    {
        if stdout_put_bytes_if_utf8(buf) {
            Some(buf.len())
        } else {
            None
        }
    }
}

impl Stderr {
    /// The error stream cannot be read.
    pub fn read(&self, buf: &mut Vec<u8>) -> (r: Option<usize>)
        ensures
            r is None,
            *final(buf) == *old(buf),
    {
        None
    }

    /// Write the bytes: as text when they are UTF-8, as byte values
    /// otherwise, but never refused.
    pub fn write(&self, buf: &Vec<u8>) -> (r: Option<usize>)
        ensures
            r == Some(buf@.len() as usize),
    {
        stderr_put_bytes(buf);
        Some(buf.len())
    }
}

} // verus!
