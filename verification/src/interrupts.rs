//! Interrupt dispatch: the table of handlers that drivers register per
//! vector, what an interrupt on a vector leads to, and the messages that an
//! unhandled interrupt is reported with.
use vstd::prelude::*;
use vstd::string::StringExecFns;

verus! {

/// The number of interrupt vectors.
pub const VECTORS: usize = 256;

/// The handler registered for each interrupt vector, by address.
pub struct HandlerTable {
    handlers: Vec<Option<u64>>,
}

impl View for HandlerTable {
    type V = Seq<Option<u64>>;

    closed spec fn view(&self) -> Seq<Option<u64>> {
        self.handlers@
    }
}

impl HandlerTable {
    /// The table has one slot per vector.
    pub open spec fn wf(&self) -> bool {
        self@.len() == VECTORS
    }

    /// A table with no handler registered.
    pub fn new() -> (t: HandlerTable)
        ensures
            t.wf(),
            forall|i: int| 0 <= i < VECTORS ==> #[trigger] t@[i] == None::<u64>,
    {
        let mut handlers: Vec<Option<u64>> = Vec::new();
        let mut i: usize = 0;
        while i < VECTORS
            invariant
                i <= VECTORS,
                handlers@.len() == i,
                forall|j: int| 0 <= j < i ==> #[trigger] handlers@[j] == None::<u64>,
            decreases VECTORS - i,
        {
            handlers.push(None);
            i = i + 1;
        }
        HandlerTable { handlers }
    }

    /// The handler registered for vector `isr`, if any.
    pub fn handler(&self, isr: u8) -> (h: Option<u64>)
        requires
            self.wf(),
        ensures
            h == self@[isr as int],
    {
        self.handlers[isr as usize]
    }
}

/// Registers `handler` (the address of a handler function) for vector `isr`,
/// replacing any handler registered before.
pub fn register_handler(table: &mut HandlerTable, isr: u8, handler: u64)
    requires
        old(table).wf(),
    ensures
        final(table).wf(),
        final(table)@ == old(table)@.update(isr as int, Some(handler)),
{
    table.handlers.set(isr as usize, Some(handler));
}

/// The character of digit `d` in base 16 (lower case), and so in base 10.
pub open spec fn digit_char(d: nat) -> char {
    if d == 0 {
        '0'
    } else if d == 1 {
        '1'
    } else if d == 2 {
        '2'
    } else if d == 3 {
        '3'
    } else if d == 4 {
        '4'
    } else if d == 5 {
        '5'
    } else if d == 6 {
        '6'
    } else if d == 7 {
        '7'
    } else if d == 8 {
        '8'
    } else if d == 9 {
        '9'
    } else if d == 10 {
        'a'
    } else if d == 11 {
        'b'
    } else if d == 12 {
        'c'
    } else if d == 13 {
        'd'
    } else if d == 14 {
        'e'
    } else {
        'f'
    }
}

/// The digits of `n` in base `b` (10 or 16), most significant first, without
/// leading zeros; zero is written as one `0`.
pub open spec fn digits(n: nat, b: nat) -> Seq<char>
    decreases n,
{
    if b < 2 || n < b {
        seq![digit_char(n)]
    } else {
        proof {
            assert(n / b < n) by (nonlinear_arith)
                requires
                    b >= 2,
                    n >= b,
            ;
        }
        digits(n / b, b).push(digit_char(n % b))
    }
}

/// The one-character string of digit `d`.
fn digit_str(d: u64) -> (s: &'static str)
    requires
        d < 16,
    ensures
        s@ == seq![digit_char(d as nat)],
{
    proof {
        reveal_strlit("0");
        reveal_strlit("1");
        reveal_strlit("2");
        reveal_strlit("3");
        reveal_strlit("4");
        reveal_strlit("5");
        reveal_strlit("6");
        reveal_strlit("7");
        reveal_strlit("8");
        reveal_strlit("9");
        reveal_strlit("a");
        reveal_strlit("b");
        reveal_strlit("c");
        reveal_strlit("d");
        reveal_strlit("e");
        reveal_strlit("f");
    }
    match d {
        0 => "0",
        1 => "1",
        2 => "2",
        3 => "3",
        4 => "4",
        5 => "5",
        6 => "6",
        7 => "7",
        8 => "8",
        9 => "9",
        10 => "a",
        11 => "b",
        12 => "c",
        13 => "d",
        14 => "e",
        _ => "f",
    }
}

/// Appends the digits of `n` in base `b` to `s`.
fn append_digits(s: &mut String, n: u64, b: u64)
    requires
        b == 10 || b == 16,
    ensures
        final(s)@ == old(s)@ + digits(n as nat, b as nat),
    decreases n,
{
    if n >= b {
        append_digits(s, n / b, b);
    }
    s.append(digit_str(n % b));
    proof {
        if n >= b {
            assert(digits(n as nat, b as nat) == digits((n / b) as nat, b as nat).push(
                digit_char((n % b) as nat),
            ));
        }
    }
}

/// The name under which an interrupt on vector `isr` is reported when no
/// handler is registered for it: the processor exceptions by name (vector
/// 14, the page fault, is reported under the name of vector 10), and every
/// vector from 32 on as "Interrupt #" and its number. The vectors without an
/// entry in the interrupt table, and the double fault and machine check,
/// which always halt, have none.
pub open spec fn exception_name(isr: u8) -> Option<Seq<char>> {
    if isr == 0 {
        Some("Divide error"@)
    } else if isr == 1 {
        Some("Debug"@)
    } else if isr == 2 {
        Some("Non-maskable interrupt"@)
    } else if isr == 3 {
        Some("Breakpoint"@)
    } else if isr == 4 {
        Some("Overflow"@)
    } else if isr == 5 {
        Some("Bound range exceeded"@)
    } else if isr == 6 {
        Some("Invalid opcode"@)
    } else if isr == 7 {
        Some("Device not available"@)
    } else if isr == 10 || isr == 14 {
        Some("Invalid TSS"@)
    } else if isr == 11 {
        Some("Segment not present"@)
    } else if isr == 12 {
        Some("Stack-segment fault"@)
    } else if isr == 13 {
        Some("General protection fault"@)
    } else if isr == 16 {
        Some("x87 Floating point"@)
    } else if isr == 17 {
        Some("Alignment check"@)
    } else if isr == 19 {
        Some("SIMD Floating point"@)
    } else if isr == 20 {
        Some("Virtualization"@)
    } else if isr == 29 {
        Some("VMM communication exception"@)
    } else if isr == 30 {
        Some("Security exception"@)
    } else if isr >= 32 {
        Some("Interrupt #"@ + digits(isr as nat, 10))
    } else {
        None
    }
}

/// The message that a fatal exception on vector `isr` halts with: the double
/// fault and the machine check.
pub open spec fn fatal_name(isr: u8) -> Option<Seq<char>> {
    if isr == 8 {
        Some("Double fault"@)
    } else if isr == 18 {
        Some("Machine check"@)
    } else {
        None
    }
}

/// Vector `isr` has an entry in the interrupt table.
pub open spec fn installed(isr: u8) -> bool {
    exception_name(isr) is Some || fatal_name(isr) is Some
}

/// The processor pushes an error code for the exceptions on vector `v`.
pub open spec fn has_error_code(v: u8) -> bool {
    v == 8 || (10 <= v <= 14) || v == 17 || v == 21 || v == 29 || v == 30
}

/// Whether the processor pushes an error code for vector `v`.
pub fn pushes_error_code(v: u8) -> (r: bool)
    ensures
        r == has_error_code(v),
{
    v == 8 || (10 <= v && v <= 14) || v == 17 || v == 21 || v == 29 || v == 30
}

/// The report name of vector `isr`, when it has one.
pub fn exception_message(isr: u8) -> (m: Option<String>)
    ensures
        match m {
            Some(s) => exception_name(isr) == Some(s@),
            None => exception_name(isr) is None,
        },
{
    let name: &str = match isr {
        0 => "Divide error",
        1 => "Debug",
        2 => "Non-maskable interrupt",
        3 => "Breakpoint",
        4 => "Overflow",
        5 => "Bound range exceeded",
        6 => "Invalid opcode",
        7 => "Device not available",
        10 => "Invalid TSS",
        11 => "Segment not present",
        12 => "Stack-segment fault",
        13 => "General protection fault",
        14 => "Invalid TSS",
        16 => "x87 Floating point",
        17 => "Alignment check",
        19 => "SIMD Floating point",
        20 => "Virtualization",
        29 => "VMM communication exception",
        30 => "Security exception",
        _ => {
            if isr >= 32 {
                let mut s = String::from_str("Interrupt #");
                append_digits(&mut s, isr as u64, 10);
                return Some(s);
            }
            return None;
        },
    };
    Some(String::from_str(name))
}

/// What an interrupt leads to.
pub enum InterruptAction {
    /// Call the registered handler at this address.
    CallHandler(u64),
    /// No handler is registered: print this name.
    Report(String),
    /// A fatal exception: halt with this message.
    Halt(String),
}

/// `a` is what an interrupt on vector `isr` leads to with the handlers
/// `handlers`: the double fault and the machine check halt; otherwise the
/// registered handler is called, or, without one, the vector's name is
/// reported.
pub open spec fn dispatches_to(handlers: Seq<Option<u64>>, isr: u8, a: InterruptAction) -> bool {
    match a {
        InterruptAction::Halt(m) => fatal_name(isr) == Some(m@),
        InterruptAction::CallHandler(h) => fatal_name(isr) is None && handlers[isr as int] == Some(
            h,
        ),
        InterruptAction::Report(m) => fatal_name(isr) is None && handlers[isr as int] is None
            && exception_name(isr) == Some(m@),
    }
}

/// What an interrupt on the installed vector `isr` leads to; see
/// `dispatches_to`.
pub fn interrupt_action(table: &HandlerTable, isr: u8) -> (a: InterruptAction)
    requires
        table.wf(),
        installed(isr),
    ensures
        dispatches_to(table@, isr, a),
{
    if isr == 8 {
        return InterruptAction::Halt(String::from_str("Double fault"));
    }
    if isr == 18 {
        return InterruptAction::Halt(String::from_str("Machine check"));
    }
    match table.handler(isr) {
        Some(h) => InterruptAction::CallHandler(h),
        None => match exception_message(isr) {
            Some(m) => InterruptAction::Report(m),
            None => InterruptAction::Report(String::new()),
        },
    }
}

/// The message that an unhandled interrupt halts the kernel with:
/// "Unhandled interrupt #", the vector, then for an exception with an error
/// code ": " and the code, all in decimal, then " @ rip" and " rsp" with the
/// instruction and stack pointers in hexadecimal, separated by "; ".
pub open spec fn unhandled_message(which: u8, error_code: Option<u64>, rip: u64, rsp: u64) -> Seq<
    char,
> {
    "Unhandled interrupt #"@ + digits(which as nat, 10) + match error_code {
        Some(e) => ": "@ + digits(e as nat, 10),
        None => Seq::empty(),
    } + " @ rip"@ + digits(rip as nat, 16) + "; rsp"@ + digits(rsp as nat, 16)
}

/// Builds the message that an unhandled interrupt halts the kernel with.
pub fn unhandled_interrupt_message(which: u8, error_code: Option<u64>, rip: u64, rsp: u64) -> (m:
    String)
    ensures
        m@ == unhandled_message(which, error_code, rip, rsp),
{
    let mut s = String::from_str("Unhandled interrupt #");
    append_digits(&mut s, which as u64, 10);
    match error_code {
        Some(e) => {
            s.append(": ");
            append_digits(&mut s, e, 10);
        },
        None => {},
    }
    s.append(" @ rip");
    append_digits(&mut s, rip, 16);
    s.append("; rsp");
    append_digits(&mut s, rsp, 16);
    s
}

/// A handler registered for a vector that does not halt is what an
/// interrupt on that vector calls; registering it changes nothing for the
/// other vectors.
pub proof fn lemma_registered_handler_runs(
    handlers: Seq<Option<u64>>,
    isr: u8,
    h: u64,
    other: u8,
    a: InterruptAction,
)
    requires
        handlers.len() == VECTORS,
    ensures
        fatal_name(isr) is None && dispatches_to(handlers.update(isr as int, Some(h)), isr, a)
            ==> a == InterruptAction::CallHandler(h),
        other != isr ==> (dispatches_to(handlers.update(isr as int, Some(h)), other, a)
            <==> dispatches_to(handlers, other, a)),
{
}

} // verus!
