//! Boundary events: one open or close boundary of one source region,
//! annotated with the overlap depth at the moment of emission.

use vstd::prelude::*;

use crate::region::{lex_lt, RegionModel, WithRegion};

verus! {

/// Mathematical description of one emitted boundary event.
pub ghost struct EventModel {
    pub is_open: bool,
    pub index: int,
    pub depth: int,
    pub region: RegionModel,
}

impl EventModel {
    /// The sequence name this boundary lies on.
    pub open spec fn chrom(self) -> Seq<char> {
        self.region.chrom
    }

    /// The coordinate of this boundary: `begin` for an open event, `end` for
    /// a close event.
    pub open spec fn coord(self) -> u32 {
        if self.is_open {
            self.region.begin
        } else {
            self.region.end
        }
    }
}

/// One boundary of one source region.
///
/// `origin_index` identity and `depth` never take part in comparisons; only
/// the position `(chrom, coordinate)` and `is_open` do.
pub struct Point<T: WithRegion> {
    /// True for the interval's begin boundary, false for its end boundary.
    pub is_open: bool,
    /// Zero-based position of the source region in the upstream sequence.
    pub index: usize,
    /// Overlap count associated with this boundary at emission time.
    pub depth: usize,
    /// The originating region, retained by the event.
    pub value: T,
}

impl<T: WithRegion> Point<T> {
    /// The event this point stands for.
    pub open spec fn model(&self) -> EventModel {
        EventModel {
            is_open: self.is_open,
            index: self.index as int,
            depth: self.depth as int,
            region: self.value.model(),
        }
    }

    /// The position used for ordering: the sequence name, and `begin` for an
    /// open event or `end` for a close event.
    pub fn position(&self) -> (r: (&str, u32))
        ensures
            r.0@ == self.model().chrom(),
            r.1 == self.model().coord(),
    {
        if self.is_open {
            (self.value.chrom(), self.value.begin())
        } else {
            (self.value.chrom(), self.value.end())
        }
    }
}

/// The decimal digit `d` as a one-character sequence.
pub open spec fn digit_rep(d: int) -> Seq<char> {
    if d == 0 {
        "0"@
    } else if d == 1 {
        "1"@
    } else if d == 2 {
        "2"@
    } else if d == 3 {
        "3"@
    } else if d == 4 {
        "4"@
    } else if d == 5 {
        "5"@
    } else if d == 6 {
        "6"@
    } else if d == 7 {
        "7"@
    } else if d == 8 {
        "8"@
    } else {
        "9"@
    }
}

/// The decimal digits of `n`, most significant first.
pub open spec fn dec_rep(n: int) -> Seq<char>
    recommends
        n >= 0,
    decreases n,
{
    if n < 10 {
        digit_rep(n)
    } else {
        dec_rep(n / 10) + digit_rep(n % 10)
    }
}

/// The textual form of an event: `Open(` or `Close(`, then the sequence
/// name, the boundary coordinate and the depth, separated by `, ` and closed
/// by `)`.
pub open spec fn describe_rep(e: EventModel) -> Seq<char> {
    (if e.is_open {
        "Open("@
    } else {
        "Close("@
    }) + e.chrom() + ", "@ + dec_rep(e.coord() as int) + ", "@ + dec_rep(e.depth) + ")"@
}

/// Appends the single decimal digit `d`.
fn push_digit(s: &mut String, d: u64)
    requires
        d < 10,
    ensures
        final(s)@ == old(s)@ + digit_rep(d as int),
{
    let t: &str = if d == 0 {
        "0"
    } else if d == 1 {
        "1"
    } else if d == 2 {
        "2"
    } else if d == 3 {
        "3"
    } else if d == 4 {
        "4"
    } else if d == 5 {
        "5"
    } else if d == 6 {
        "6"
    } else if d == 7 {
        "7"
    } else {
        "8"
    };
    let t: &str = if d == 9 {
        "9"
    } else {
        t
    };
    s.append(t);
}

/// Renders `n` in decimal.
fn dec_string(n: u64) -> (s: String)
    ensures
        s@ == dec_rep(n as int),
    decreases n,
{
    if n < 10 {
        let mut s = String::new();
        push_digit(&mut s, n);
        proof {
            assert(Seq::<char>::empty() + digit_rep(n as int) =~= digit_rep(n as int));
        }
        s
    } else {
        let mut s = dec_string(n / 10);
        push_digit(&mut s, n % 10);
        s
    }
}

impl<T: WithRegion> Point<T> {
    /// The textual form of this event, as [`describe_rep`] gives it.
    pub fn describe(&self) -> (s: String)
        ensures
            s@ == describe_rep(self.model()),
    {
        let mut s = String::from_str(
            if self.is_open {
                "Open("
            } else {
                "Close("
            },
        );
        let (chrom, coord) = self.position();
        s.append(chrom);
        s.append(", ");
        let coord_text = dec_string(coord as u64);
        s.append(coord_text.as_str());
        s.append(", ");
        let depth_text = dec_string(self.depth as u64);
        s.append(depth_text.as_str());
        s.append(")");
        s
    }
}

/// The comparison relation on events: position first (sequence name, then
/// coordinate), and at an exact position tie, close before open.
pub open spec fn event_cmp(a: EventModel, b: EventModel) -> core::cmp::Ordering {
    if lex_lt(a.chrom(), b.chrom()) {
        core::cmp::Ordering::Less
    } else if lex_lt(b.chrom(), a.chrom()) {
        core::cmp::Ordering::Greater
    } else if a.coord() < b.coord() {
        core::cmp::Ordering::Less
    } else if b.coord() < a.coord() {
        core::cmp::Ordering::Greater
    } else if !a.is_open && b.is_open {
        core::cmp::Ordering::Less
    } else if a.is_open && !b.is_open {
        core::cmp::Ordering::Greater
    } else {
        core::cmp::Ordering::Equal
    }
}

impl<T: WithRegion> PartialEq for Point<T> {
    fn eq(&self, other: &Point<T>) -> (r: bool) {
        let (c1, x1) = self.position();
        let (c2, x2) = other.position();
        match crate::region::str_cmp(c1, c2) {
            core::cmp::Ordering::Equal => x1 == x2,
            _ => false,
        }
    }
}

impl<T: WithRegion> vstd::std_specs::cmp::PartialEqSpecImpl for Point<T> {
    open spec fn obeys_eq_spec() -> bool {
        true
    }

    open spec fn eq_spec(&self, other: &Point<T>) -> bool {
        self.model().chrom() == other.model().chrom() && self.model().coord()
            == other.model().coord()
    }
}

impl<T: WithRegion> PartialOrd for Point<T> {
    fn partial_cmp(&self, other: &Point<T>) -> (r: Option<core::cmp::Ordering>) {
        let (c1, x1) = self.position();
        let (c2, x2) = other.position();
        let ord = match crate::region::str_cmp(c1, c2) {
            core::cmp::Ordering::Less => core::cmp::Ordering::Less,
            core::cmp::Ordering::Greater => core::cmp::Ordering::Greater,
            core::cmp::Ordering::Equal => if x1 < x2 {
                core::cmp::Ordering::Less
            } else if x2 < x1 {
                core::cmp::Ordering::Greater
            } else if !self.is_open && other.is_open {
                core::cmp::Ordering::Less
            } else if self.is_open && !other.is_open {
                core::cmp::Ordering::Greater
            } else {
                core::cmp::Ordering::Equal
            },
        };
        Some(ord)
    }
}

impl<T: WithRegion> vstd::std_specs::cmp::PartialOrdSpecImpl for Point<T> {
    open spec fn obeys_partial_cmp_spec() -> bool {
        true
    }

    open spec fn partial_cmp_spec(&self, other: &Point<T>) -> Option<core::cmp::Ordering> {
        Some(event_cmp(self.model(), other.model()))
    }
}

} // verus!
