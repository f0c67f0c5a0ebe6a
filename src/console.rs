use vstd::prelude::*;
use vstd::string::StrSliceExecFns;

verus! {

/// Firmware extension: write one console character.
pub const SBI_CONSOLE_PUTCHAR: u32 = 1;
/// Firmware extension: read one console character.
pub const SBI_CONSOLE_GETCHAR: u32 = 2;

/// The argument registers `a0`..`a7` of one firmware call; `a7` selects the
/// extension.
#[derive(Clone, Copy, Debug)]
pub struct SbiCall {
    pub args: [u32; 8],
}

/// The firmware call that writes character code `ch`.
pub open spec fn put_char_call(ch: u32) -> Seq<u32> {
    seq![ch, 0, 0, 0, 0, 0, 0, SBI_CONSOLE_PUTCHAR]
}

/// The firmware call that writes character code `ch` to the console.
pub fn put_char(ch: u32) -> (r: SbiCall)
    ensures
        r.args@ == put_char_call(ch),
{
    let r = SbiCall { args: [ch, 0, 0, 0, 0, 0, 0, SBI_CONSOLE_PUTCHAR] };
    assert(r.args@ =~= put_char_call(ch));
    r
}

/// The firmware call that reads one character from the console.
pub fn get_char() -> (r: SbiCall)
    ensures
        r.args@ == seq![0u32, 0, 0, 0, 0, 0, 0, SBI_CONSOLE_GETCHAR],
{
    let r = SbiCall { args: [0, 0, 0, 0, 0, 0, 0, SBI_CONSOLE_GETCHAR] };
    assert(r.args@ =~= seq![0u32, 0, 0, 0, 0, 0, 0, SBI_CONSOLE_GETCHAR]);
    r
}

/// The firmware calls that write `s` to the console: one per character, in order.
pub fn print(s: &str) -> (r: Vec<SbiCall>)
    ensures
        r@.len() == s@.len(),
        forall|i: int| 0 <= i < s@.len() ==> (#[trigger] r@[i]).args@ == put_char_call(s@[i] as u32),
{
    let n = s.unicode_len();
    let mut out: Vec<SbiCall> = Vec::new();
    let mut i: usize = 0;
    while i < n
        invariant
            n == s@.len(),
            i <= n,
            out@.len() == i,
            forall|k: int| 0 <= k < i ==> (#[trigger] out@[k]).args@ == put_char_call(s@[k] as u32),
        decreases n - i,
    {
        let c = s.get_char(i);
        out.push(put_char(c as u32));
        i = i + 1;
    }
    out
}

} // verus!
