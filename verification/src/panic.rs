//! What the kernel does when it panics: the first panic is reported, one during
//! the report goes straight to the exit.
use vstd::prelude::*;
use vstd::string::*;

verus! {

/// What to do about a panic.
#[derive(Clone, Copy, PartialEq, Eq, Debug, Structural)]
pub enum PanicDisposition {
    /// The first one: report it, then exit with failure.
    Report,
    /// A panic while panicking: exit at once, since the reporting itself is
    /// suspect.
    ExitImmediately,
}

/// Whether the kernel is panicking. One way.
pub struct PanicState {
    in_progress: bool,
}

impl View for PanicState {
    type V = bool;

    closed spec fn view(&self) -> bool {
        self.in_progress
    }
}

impl PanicState {
    pub fn new() -> (s: PanicState)
        ensures
            s@ == panicking_after(0),
    {
        PanicState { in_progress: false }
    }
}

/// What a panic comes to when the kernel is `panicking` already or not: what to
/// do, and whether it is panicking then.
pub open spec fn entry(panicking: bool) -> (PanicDisposition, bool) {
    if panicking {
        (PanicDisposition::ExitImmediately, true)
    } else {
        (PanicDisposition::Report, true)
    }
}

/// Whether the kernel is panicking after `n` panics.
pub open spec fn panicking_after(n: nat) -> bool
    decreases n,
{
    if n == 0 {
        false
    } else {
        entry(panicking_after((n - 1) as nat)).1
    }
}

/// What is done about each of the first `n` panics.
pub open spec fn dispositions(n: nat) -> Seq<PanicDisposition>
    decreases n,
{
    if n == 0 {
        Seq::empty()
    } else {
        let before = (n - 1) as nat;
        dispositions(before).push(entry(panicking_after(before)).0)
    }
}

/// However many panics there are, the first is reported and every later one
/// exits at once; and the kernel is panicking from the first one on for ever.
pub proof fn law_only_the_first_panic_is_reported(n: nat)
    ensures
        panicking_after(n) == (n > 0),
        dispositions(n).len() == n,
        forall|i: int|
            0 <= i < n ==> #[trigger] dispositions(n)[i] == (if i == 0 {
                PanicDisposition::Report
            } else {
                PanicDisposition::ExitImmediately
            }),
    decreases n,
{
    if n > 0 {
        law_only_the_first_panic_is_reported((n - 1) as nat);
    }
}

/// Marks the kernel as panicking, and says what to do about it.
pub fn enter(state: &mut PanicState) -> (d: PanicDisposition)
    ensures
        (d, final(state)@) == entry(old(state)@),
{
    let nested: bool = state.in_progress;
    state.in_progress = true;
    if nested {
        PanicDisposition::ExitImmediately
    } else {
        PanicDisposition::Report
    }
}

/// Whether the kernel is panicking.
pub fn is_panicking(state: &PanicState) -> (b: bool)
    ensures
        b == state@,
{
    state.in_progress
}

/// Where a panic came from.
pub struct Location {
    pub file: String,
    pub line: u32,
    pub column: u32,
}

/// A number in decimal.
pub open spec fn decimal(n: nat) -> Seq<char>
    decreases n,
{
    if n < 10 {
        seq![digit(n)]
    } else {
        decimal(n / 10).push(digit(n % 10))
    }
}

/// One decimal digit.
pub open spec fn digit(d: nat) -> char {
    if d == 0 {
        '0'
    } else if d == 1 {
        '1'
    } else if d == 2 {
        '2'
    } else if d == 3 {
        '3'
    } else if d == 4 {
        '4'
    } else if d == 5 {
        '5'
    } else if d == 6 {
        '6'
    } else if d == 7 {
        '7'
    } else if d == 8 {
        '8'
    } else {
        '9'
    }
}

fn digit_text(d: u64) -> (s: &'static str)
    requires
        d < 10,
    ensures
        s@ == seq![digit(d as nat)],
{
    proof {
        reveal_strlit("0");
        reveal_strlit("1");
        reveal_strlit("2");
        reveal_strlit("3");
        reveal_strlit("4");
        reveal_strlit("5");
        reveal_strlit("6");
        reveal_strlit("7");
        reveal_strlit("8");
        reveal_strlit("9");
    }
    let s: &'static str = if d == 0 {
        "0"
    } else if d == 1 {
        "1"
    } else if d == 2 {
        "2"
    } else if d == 3 {
        "3"
    } else if d == 4 {
        "4"
    } else if d == 5 {
        "5"
    } else if d == 6 {
        "6"
    } else if d == 7 {
        "7"
    } else if d == 8 {
        "8"
    } else {
        "9"
    };
    assert(s@ =~= seq![digit(d as nat)]);
    s
}

fn push_decimal(out: &mut String, n: u64)
    ensures
        final(out)@ == old(out)@ + decimal(n as nat),
    decreases n,
{
    let ghost before = out@;
    if n >= 10 {
        push_decimal(out, n / 10);
    }
    out.append(digit_text(n % 10));
    assert(out@ =~= before + decimal(n as nat));
}

/// The tag a report line opens with: the clock, or a dash without one, and the
/// module.
pub open spec fn tag(ticks: Option<u64>) -> Seq<char> {
    "["@ + (match ticks {
        Some(t) => decimal(t as nat),
        None => "-"@,
    }) + " kcore::panic] "@
}

/// The place a report names.
pub open spec fn place(location: Option<Location>) -> Seq<char> {
    match location {
        Some(l) => l.file@ + ":"@ + decimal(l.line as nat) + ":"@ + decimal(l.column as nat),
        None => "unknown location"@,
    }
}

/// The report of a panic: off whatever line was being written, then one line.
pub open spec fn report_text(
    message: Seq<char>,
    location: Option<Location>,
    ticks: Option<u64>,
) -> Seq<char> {
    "\n"@ + tag(ticks) + "KERNEL PANIC at "@ + place(location) + " — "@ + message + "\n"@
}

/// Writes the report of a panic onto `out`.
pub fn write_report(
    out: &mut String,
    message: &str,
    location: Option<Location>,
    ticks: Option<u64>,
)
    ensures
        final(out)@ == old(out)@ + report_text(message@, location, ticks),
{
    let ghost before = out@;
    out.append("\n");
    out.append("[");
    match ticks {
        Some(t) => push_decimal(out, t),
        None => out.append("-"),
    }
    out.append(" kcore::panic] ");
    assert(out@ =~= before + "\n"@ + tag(ticks));
    out.append("KERNEL PANIC at ");
    let ghost at_place = out@;
    match &location {
        Some(l) => {
            out.append(l.file.as_str());
            out.append(":");
            push_decimal(out, l.line as u64);
            out.append(":");
            push_decimal(out, l.column as u64);
        },
        None => {
            out.append("unknown location");
        },
    }
    assert(out@ =~= at_place + place(location));
    out.append(" — ");
    out.append(message);
    out.append("\n");
    assert(out@ =~= before + report_text(message@, location, ticks));
}

/// A number is written in decimal: its last digit is what is left over by ten,
/// what stands before it is the number without that digit, and different digits
/// look different.
pub proof fn law_a_number_is_written_in_decimal(n: nat, a: nat, b: nat)
    ensures
        n < 10 ==> decimal(n) == seq![digit(n)],
        n >= 10 ==> decimal(n).drop_last() == decimal(n / 10) && decimal(n).last() == digit(n % 10),
        a < 10 && b < 10 && digit(a) == digit(b) ==> a == b,
        digit(0) == '0',
        digit(9) == '9',
        a < 9 ==> digit(a + 1) as u32 == digit(a) as u32 + 1,
{
    if n >= 10 {
        assert(decimal(n).drop_last() =~= decimal(n / 10));
    }
}

/// A report names the time, the place and the message, in that order, on a line
/// of its own.
pub proof fn law_a_report_names_time_place_and_message(
    message: Seq<char>,
    location: Option<Location>,
    ticks: Option<u64>,
)
    ensures
        ({
            let t = report_text(message, location, ticks);
            let head = "\n"@ + tag(ticks) + "KERNEL PANIC at "@ + place(location) + " — "@;
            &&& t.len() == head.len() + message.len() + "\n"@.len()
            &&& head.is_prefix_of(t)
            &&& t.subrange(head.len() as int, (head.len() + message.len()) as int) == message
            &&& t.skip((head.len() + message.len()) as int) == "\n"@
        }),
        location matches Some(l) ==> place(location) == l.file@ + ":"@ + decimal(l.line as nat)
            + ":"@ + decimal(l.column as nat),
        location is None ==> place(location) == "unknown location"@,
        ticks matches Some(x) ==> tag(ticks) == "["@ + decimal(x as nat) + " kcore::panic] "@,
        ticks is None ==> tag(ticks) == "["@ + "-"@ + " kcore::panic] "@,
{
    let t = report_text(message, location, ticks);
    let head = "\n"@ + tag(ticks) + "KERNEL PANIC at "@ + place(location) + " — "@;
    assert(t =~= head + message + "\n"@);
    assert(t.subrange(head.len() as int, (head.len() + message.len()) as int) =~= message);
    assert(t.skip((head.len() + message.len()) as int) =~= "\n"@);
}

} // verus!
