//! What the status display shows for each pin: a coloured glyph, a suffix, the lines of
//! a redrawn frame and the plain lines printed when stdout is no terminal.
use vstd::prelude::*;
use vstd::string::*;

use crate::text::{push_char, push_chars};

verus! {

/// Where the work on one pin stands.
#[derive(Clone)]
pub enum PinStatus {
    Pending,
    Fetching,
    NoChange,
    Updated { old: String, new: String },
    Drift { rev: String, accepted: bool },
    Failed(String),
}

/// The spinner's frames.
pub const FRAMES: [char; 4] = ['/', '-', '\\', '|'];

/// The ANSI colour number of a status.
pub open spec fn color_spec(st: PinStatus) -> Seq<char> {
    match st {
        PinStatus::Pending => "2"@,
        PinStatus::Fetching => "34"@,
        PinStatus::NoChange => "33"@,
        PinStatus::Updated { .. } => "32"@,
        PinStatus::Drift { accepted, .. } => if accepted {
            "33"@
        } else {
            "31"@
        },
        PinStatus::Failed(_) => "31"@,
    }
}

/// The glyph of a status; a pin being fetched shows the spinner frame `frame`.
pub open spec fn mark_spec(st: PinStatus, frame: int) -> char {
    match st {
        PinStatus::Pending => '·',
        PinStatus::Fetching => FRAMES@[frame % 4],
        PinStatus::NoChange => '-',
        PinStatus::Updated { .. } => '✓',
        PinStatus::Drift { accepted, .. } => if accepted {
            '~'
        } else {
            '!'
        },
        PinStatus::Failed(_) => '✗',
    }
}

/// The glyph in its colour, the colour reset after it.
pub open spec fn glyph_spec(st: PinStatus, frame: int) -> Seq<char> {
    "\x1b["@ + color_spec(st) + "m"@ + seq![mark_spec(st, frame)] + "\x1b[0m"@
}

/// What follows the name on a status line of the live display.
pub open spec fn suffix_spec(st: PinStatus) -> Seq<char> {
    match st {
        PinStatus::Updated { old, new } => "  "@ + old@ + " -> "@ + new@,
        PinStatus::Drift { rev, accepted } => if accepted {
            "  DRIFT: rev "@ + rev@ + " content changed, relocked (--accept)"@
        } else {
            "  DRIFT: rev "@ + rev@ + " unchanged but content differs (lock kept)"@
        },
        PinStatus::Failed(msg) => "  "@ + msg@,
        _ => Seq::empty(),
    }
}

/// The line printed for a pin when stdout is no terminal; none for a pin still pending
/// or being fetched.
pub open spec fn plain_line_spec(name: Seq<char>, st: PinStatus) -> Option<Seq<char>> {
    match st {
        PinStatus::Updated { old, new } => Some(name + ": "@ + old@ + " -> "@ + new@),
        PinStatus::NoChange => Some(name + ": unchanged"@),
        PinStatus::Drift { rev, accepted } => if accepted {
            Some(name + ": DRIFT: rev "@ + rev@ + " content changed, relocked (--accept)"@)
        } else {
            Some(name + ": DRIFT: rev "@ + rev@ + " unchanged but content differs (lock kept)"@)
        },
        PinStatus::Failed(msg) => Some(name + ": FAILED: "@ + msg@),
        _ => None,
    }
}

/// The coloured glyph of `st`.
pub fn glyph(st: &PinStatus, frame: usize) -> (r: String)
    ensures
        r@ == glyph_spec(*st, frame as int),
{
    let mut out = String::from_str("\x1b[");
    let ch = match st {
        PinStatus::Pending => {
            out.append("2");
            '·'
        },
        PinStatus::Fetching => {
            out.append("34");
            FRAMES[frame % 4]
        },
        PinStatus::NoChange => {
            out.append("33");
            '-'
        },
        PinStatus::Updated { .. } => {
            out.append("32");
            '✓'
        },
        PinStatus::Drift { accepted, .. } => {
            if *accepted {
                out.append("33");
                '~'
            } else {
                out.append("31");
                '!'
            }
        },
        PinStatus::Failed(_) => {
            out.append("31");
            '✗'
        },
    };
    out.append("m");
    push_char(&mut out, ch);
    out.append("\x1b[0m");
    out
}

/// What follows the name on a status line.
pub fn suffix(st: &PinStatus) -> (r: String)
    ensures
        r@ == suffix_spec(*st),
{
    match st {
        PinStatus::Updated { old, new } => {
            let mut s = String::from_str("  ");
            s.append(old.as_str());
            s.append(" -> ");
            s.append(new.as_str());
            s
        },
        PinStatus::Drift { rev, accepted } => {
            let mut s = String::from_str("  DRIFT: rev ");
            s.append(rev.as_str());
            if *accepted {
                s.append(" content changed, relocked (--accept)");
            } else {
                s.append(" unchanged but content differs (lock kept)");
            }
            s
        },
        PinStatus::Failed(msg) => {
            let mut s = String::from_str("  ");
            s.append(msg.as_str());
            s
        },
        _ => String::new(),
    }
}

/// The plain line for a pin, if its status has one.
pub fn plain_line(name: &str, st: &PinStatus) -> (r: Option<String>)
    ensures
        match r {
            Some(s) => plain_line_spec(name@, *st) == Some(s@),
            None => plain_line_spec(name@, *st) is None,
        },
{
    match st {
        PinStatus::Updated { old, new } => {
            let mut s = String::from_str(name);
            s.append(": ");
            s.append(old.as_str());
            s.append(" -> ");
            s.append(new.as_str());
            Some(s)
        },
        PinStatus::NoChange => {
            let mut s = String::from_str(name);
            s.append(": unchanged");
            Some(s)
        },
        PinStatus::Drift { rev, accepted } => {
            let mut s = String::from_str(name);
            s.append(": DRIFT: rev ");
            s.append(rev.as_str());
            if *accepted {
                s.append(" content changed, relocked (--accept)");
            } else {
                s.append(" unchanged but content differs (lock kept)");
            }
            Some(s)
        },
        PinStatus::Failed(msg) => {
            let mut s = String::from_str(name);
            s.append(": FAILED: ");
            s.append(msg.as_str());
            Some(s)
        },
        _ => None,
    }
}

/// The decimal digits of `n`.
pub open spec fn decimal(n: nat) -> Seq<char>
    decreases n,
{
    if n < 10 {
        seq![(n + 48) as char]
    } else {
        decimal(n / 10) + seq![((n % 10) + 48) as char]
    }
}

/// The decimal digits of `n`.
pub fn decimal_string(n: usize) -> (r: String)
    ensures
        r@ == decimal(n as nat),
{
    let mut digits: Vec<char> = Vec::new();
    let mut m = n;
    // digits hold the low digits of n, least significant first
    while m >= 10
        invariant
            decimal(n as nat) == decimal(m as nat) + digits@.reverse(),
        decreases m,
    {
        let d = m % 10;
        let c = ((d as u8) + 48u8) as char;
        let ghost old_digits = digits@;
        assert(decimal(m as nat) == decimal((m / 10) as nat) + seq![c]);
        digits.push(c);
        assert(digits@.reverse() =~= seq![c] + old_digits.reverse());
        m = m / 10;
    }
    let mut out = String::new();
    push_char(&mut out, ((m as u8) + 48u8) as char);
    let mut i = digits.len();
    while i > 0
        invariant
            i <= digits@.len(),
            out@ + digits@.take(i as int).reverse() == decimal(n as nat),
        decreases i,
    {
        i = i - 1;
        let ghost before = out@;
        push_char(&mut out, digits[i]);
        assert(digits@.take(i + 1).reverse() =~= seq![digits@[i as int]] + digits@.take(
            i as int,
        ).reverse());
        assert(out@ + digits@.take(i as int).reverse() =~= before + digits@.take(
            i + 1,
        ).reverse());
    }
    assert(digits@.take(0).reverse() =~= Seq::<char>::empty());
    assert(out@ + Seq::<char>::empty() =~= out@);
    out
}

/// One line of the live display.
pub open spec fn status_line_spec(name: Seq<char>, st: PinStatus, frame: int) -> Seq<char> {
    "\x1b[2K"@ + "["@ + glyph_spec(st, frame) + "] "@ + name + suffix_spec(st) + "\n"@
}

/// The lines for the first `k` pins.
pub open spec fn status_lines_spec(
    names: Seq<String>,
    states: Seq<PinStatus>,
    frame: int,
    k: int,
) -> Seq<char>
    decreases k,
{
    if k <= 0 {
        Seq::empty()
    } else {
        status_lines_spec(names, states, frame, k - 1) + status_line_spec(
            names[k - 1]@,
            states[k - 1],
            frame,
        )
    }
}

/// A frame of the live display: when one was drawn before, the cursor first moves up over
/// it; then one line per pin (as many as there are both names and states).
pub open spec fn frame_spec(
    names: Seq<String>,
    states: Seq<PinStatus>,
    frame: int,
    drawn: bool,
) -> Seq<char> {
    let k = if names.len() < states.len() {
        names.len() as int
    } else {
        states.len() as int
    };
    (if drawn {
        "\x1b["@ + decimal(names.len()) + "A"@
    } else {
        Seq::empty()
    }) + status_lines_spec(names, states, frame, k)
}

/// The text that redraws the live display.
pub fn render_frame(names: &[String], states: &[PinStatus], frame: usize, drawn: bool) -> (r:
    String)
    ensures
        r@ == frame_spec(names@, states@, frame as int, drawn),
{
    let mut out = String::new();
    if drawn {
        out.append("\x1b[");
        let n = decimal_string(names.len());
        out.append(n.as_str());
        out.append("A");
    }
    let ghost head = out@;
    assert(out@ == (if drawn {
        "\x1b["@ + decimal(names@.len()) + "A"@
    } else {
        Seq::<char>::empty()
    })) by {
        if drawn {
            assert(out@ =~= "\x1b["@ + decimal(names@.len()) + "A"@);
        } else {
            assert(out@ =~= Seq::<char>::empty());
        }
    }
    let k = if names.len() < states.len() {
        names.len()
    } else {
        states.len()
    };
    let mut i: usize = 0;
    while i < k
        invariant
            i <= k,
            k <= names@.len(),
            k <= states@.len(),
            out@ == head + status_lines_spec(names@, states@, frame as int, i as int),
        decreases k - i,
    {
        let ghost before = out@;
        out.append("\x1b[2K");
        out.append("[");
        let g = glyph(&states[i], frame);
        out.append(g.as_str());
        out.append("] ");
        out.append(names[i].as_str());
        let sfx = suffix(&states[i]);
        out.append(sfx.as_str());
        out.append("\n");
        assert(out@ =~= before + status_line_spec(names@[i as int]@, states@[i as int], frame as int));
        i = i + 1;
    }
    out
}

} // verus!
