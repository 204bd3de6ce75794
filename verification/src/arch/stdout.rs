//! The console, as the bytes that go to it.

use vstd::prelude::*;
use vstd::string::StringSliceAdditionalSpecFns;

verus! {

/// What the console gets for the bytes `s`: each byte as it is, but a
/// delete (127) as backspace, space, backspace, which rubs out the
/// character before the cursor.
pub open spec fn console_bytes(s: Seq<u8>) -> Seq<u8>
    decreases s.len(),
{
    if s.len() == 0 {
        Seq::empty()
    } else {
        console_bytes(s.drop_last()) + (if s.last() == 127 {
            seq![8u8, 32u8, 8u8]
        } else {
            seq![s.last()]
        })
    }
}

/// The console: the bytes handed to it and not yet sent, oldest first.
pub struct Stdout {
    out: Vec<u8>,
}

impl View for Stdout {
    type V = Seq<u8>;

    closed spec fn view(&self) -> Seq<u8> {
        self.out@
    }
}

/// Hands byte `c` to the console as it is.
fn putchar_raw(stdout: &mut Stdout, c: u8)
    ensures
        final(stdout)@ == old(stdout)@.push(c),
{
    stdout.out.push(c);
}

impl Stdout {
    /// A console with nothing to send.
    pub fn new() -> (r: Stdout)
        ensures
            r@ == Seq::<u8>::empty(),
    {
        Stdout { out: Vec::new() }
    }

    /// Hands the bytes of `s` to the console.
    pub fn write_str(&mut self, s: &str)
        ensures
            final(self)@ == old(self)@ + console_bytes(s.spec_bytes()),
    {
        let bytes = s.as_bytes();
        let mut i: usize = 0;
        assert(bytes@.take(0) =~= Seq::<u8>::empty());
        assert(self@ =~= old(self)@ + console_bytes(bytes@.take(0)));
        while i < bytes.len()
            invariant
                i <= bytes@.len(),
                self@ == old(self)@ + console_bytes(bytes@.take(i as int)),
            decreases bytes@.len() - i,
        {
            let c: u8 = bytes[i];
            proof {
                assert(bytes@.take(i as int + 1).drop_last() =~= bytes@.take(i as int));
                assert(bytes@.take(i as int + 1).last() == c);
            }
            let ghost before = self@;
            if c == 127 {
                putchar_raw(self, 8);
                putchar_raw(self, 32);
                putchar_raw(self, 8);
                assert(self@ =~= before + seq![8u8, 32u8, 8u8]);
            } else {
                putchar_raw(self, c);
                assert(self@ =~= before + seq![c]);
            }
            assert(self@ =~= old(self)@ + console_bytes(bytes@.take(i as int + 1)));
            i = i + 1;
        }
        assert(bytes@.take(bytes@.len() as int) =~= bytes@);
    }

    /// Takes the bytes to send off the console.
    pub fn take(&mut self) -> (r: Vec<u8>)
        ensures
            r@ == old(self)@,
            final(self)@ == Seq::<u8>::empty(),
    {
        let mut r: Vec<u8> = Vec::new();
        std::mem::swap(&mut r, &mut self.out);
        r
    }
}

/// Writes `s` to the console `stdout`.
pub fn stdout_puts(stdout: &mut Stdout, s: &str)
    ensures
        final(stdout)@ == old(stdout)@ + console_bytes(s.spec_bytes()),
{
    stdout.write_str(s);
}

} // verus!
