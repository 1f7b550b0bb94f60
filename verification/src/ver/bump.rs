//! The version that follows a version.

use vstd::prelude::*;
use crate::deb_ext::DOT;
use crate::text::{copy_bytes, decimal, digits_of, join_bytes, joined};
use crate::version::{components, Component, ComponentView, Version, LETTER_V};

verus! {

/// Which part of a version to raise.
#[derive(Debug, Clone, Copy)]
pub enum Bump {
    /// The third component.
    Patch,
    /// The second component; the third where the first is zero.
    Minor,
    /// The first component that is not zero, but no later than the third.
    Major,
    /// The component of the given number, counted from one.
    Component(u8),
    /// The date of today as the first component, and a counter as the
    /// second.
    DateMajor,
}

/// Why a version could not be raised.
#[derive(Debug)]
pub enum BumpError {
    /// The component to raise is no number.
    NonNumericComponent(Vec<u8>),
    /// The version bears a date that is later than today.
    FutureDate(Vec<u8>),
}

/// What an error holds.
pub enum BumpErrorView {
    NonNumericComponent(Seq<u8>),
    FutureDate(Seq<u8>),
}

impl View for BumpError {
    type V = BumpErrorView;

    open spec fn view(&self) -> BumpErrorView {
        match self {
            BumpError::NonNumericComponent(s) => BumpErrorView::NonNumericComponent(s@),
            BumpError::FutureDate(s) => BumpErrorView::FutureDate(s@),
        }
    }
}

/// A component as it is written.
pub open spec fn component_text(c: ComponentView) -> Seq<u8> {
    match c {
        ComponentView::Numeric(n) => digits_of(10, n as nat),
        ComponentView::String(s) => s,
    }
}

/// The zero, as a component is written.
pub open spec fn zero_text() -> Seq<u8> {
    digits_of(10, 0)
}

/// A version as it is written from the texts of its components: `v`, and
/// the texts with full stops between.
pub open spec fn version_text(parts: Seq<Seq<u8>>) -> Seq<u8> {
    seq![LETTER_V] + joined(parts, seq![DOT])
}

/// The number that the component `which` (counted from one) is raised to:
/// one more than it holds; one where the version has no such component.
pub open spec fn raised(comps: Seq<ComponentView>, which: nat) -> Result<nat, BumpErrorView> {
    if which >= 1 && comps.len() >= which {
        match comps[which - 1] {
            ComponentView::Numeric(x) => Ok((x + 1) as nat),
            ComponentView::String(s) => Err(BumpErrorView::NonNumericComponent(s)),
        }
    } else {
        Ok(1)
    }
}

/// The texts of the components of the version in which the component
/// `which` holds `n`: the components before it as they are, zero where
/// they are missing; zero after it; three components at least.
pub open spec fn raised_parts(comps: Seq<ComponentView>, which: nat, n: nat) -> Seq<Seq<u8>> {
    Seq::new(
        if which > 3 {
            which
        } else {
            3
        },
        |k: int|
            if k < which - 1 {
                if k < comps.len() {
                    component_text(comps[k])
                } else {
                    zero_text()
                }
            } else if k == which - 1 {
                digits_of(10, n)
            } else {
                zero_text()
            },
    )
}

/// The version in which the component `which` (counted from one) is
/// raised, or why it cannot be.
pub open spec fn bumped_component(version: Seq<u8>, which: nat) -> Result<Seq<u8>, BumpErrorView> {
    let comps = components(version);
    match raised(comps, which) {
        Err(e) => Err(e),
        Ok(n) => Ok(version_text(raised_parts(comps, which, n))),
    }
}

/// The place of the first component that is a number above zero, from
/// `at` on; the number of components where there is none.
pub open spec fn first_positive(comps: Seq<ComponentView>, at: int) -> int
    decreases comps.len() - at,
{
    if at < 0 || at >= comps.len() {
        comps.len() as int
    } else if comps[at] matches ComponentView::Numeric(y) && y > 0 {
        at
    } else {
        first_positive(comps, at + 1)
    }
}

/// The number of the component, counted from one, that a bump of a part
/// raises.
pub open spec fn bump_target(comps: Seq<ComponentView>, how: Bump) -> nat {
    let p = first_positive(comps, 0);
    let idx: nat = if p < comps.len() {
        (p + 1) as nat
    } else {
        3
    };
    match how {
        Bump::Major => if idx < 3 {
            idx
        } else {
            3
        },
        Bump::Minor => if idx == 1 {
            2
        } else {
            3
        },
        Bump::Component(i) => i as nat,
        _ => 3,
    }
}

/// The number that stands for a day in a version: two digits each for the
/// years since 2000, the month and the day.  Zero for a day before 2000.
pub open spec fn date_number(year: i32, month: i32, day: i32) -> u64 {
    let n = (year - 100) * 10000 + (month + 1) * 100 + day;
    if 0 <= n <= u64::MAX {
        n as u64
    } else {
        0
    }
}

/// The version that follows `version` on the day that `today` stands for:
/// the day and a counter that starts at zero, and goes on from the
/// version's where the version is of the same day.
pub open spec fn bumped_date(version: Seq<u8>, today: u64) -> Result<Seq<u8>, BumpErrorView> {
    let comps = components(version);
    let day = digits_of(10, today as nat);
    if comps.len() == 0 {
        Ok(version_text(seq![day, zero_text()]))
    } else {
        match comps[0] {
            ComponentView::String(s) => Err(BumpErrorView::NonNumericComponent(s)),
            ComponentView::Numeric(x) => if x > today {
                Err(BumpErrorView::FutureDate(version))
            } else if x < today {
                Ok(version_text(seq![day, zero_text()]))
            } else {
                match raised(comps, 2) {
                    Err(e) => Err(e),
                    Ok(n) => Ok(version_text(seq![day, digits_of(10, n)])),
                }
            },
        }
    }
}

/// Whether a version can be bumped in the given way: the component to
/// raise is counted from one, and is not the greatest number there is.
pub open spec fn can_bump(version: Seq<u8>, how: Bump) -> bool {
    let comps = components(version);
    let which = match how {
        Bump::DateMajor => 2,
        _ => bump_target(comps, how),
    };
    which >= 1 && !(comps.len() >= which && comps[which - 1] == ComponentView::Numeric(u64::MAX))
}

/// Calls `time::now_utc` and hands out the fields `tm_year`, `tm_mon` and
/// `tm_mday` of what it returns.  Believed, not proved: month and day lie
/// in the ranges that the fields document.  Nothing else is claimed: it is
/// the day of the call.
#[verifier::external_body]
fn utc_today() -> (r: (i32, i32, i32))
    ensures
        0 <= r.1 <= 11,
        1 <= r.2 <= 31,
{
    let tm = time::now_utc();
    (tm.tm_year, tm.tm_mon, tm.tm_mday)
}

/// Computes `date_number`.
pub fn day_number(year: i32, month: i32, day: i32) -> (r: u64)
    requires
        0 <= month <= 11,
        1 <= day <= 31,
    ensures
        r == date_number(year, month, day),
{
    let n: i64 = (year as i64 - 100) * 10000 + (month as i64 + 1) * 100 + day as i64;
    if n < 0 {
        0
    } else {
        n as u64
    }
}

/// A component as it is written.
fn component_bytes(c: &Component) -> (r: Vec<u8>)
    ensures
        r@ == component_text(c@),
{
    match c {
        Component::Numeric(n) => decimal(*n),
        Component::String(s) => copy_bytes(s.as_slice()),
    }
}

/// Writes a version from the texts of its components.
fn write_version(parts: &Vec<Vec<u8>>) -> (r: Version)
    ensures
        r@ == version_text(parts.deep_view()),
{
    let mut out: Vec<u8> = Vec::new();
    out.push(LETTER_V);
    let sep: [u8; 1] = [DOT];
    proof {
        assert(sep@ =~= seq![DOT]);
    }
    let body = join_bytes(parts, sep.as_slice());
    crate::text::append_bytes(&mut out, body.as_slice());
    proof {
        assert(out@ =~= version_text(parts.deep_view()));
    }
    Version(out)
}

/// The number that a component is raised to.
fn raise(comps: &Vec<Component>, which: usize) -> (r: Result<u64, BumpError>)
    requires
        which >= 1,
        !(comps.len() >= which && comps[which - 1]@ == ComponentView::Numeric(u64::MAX)),
    ensures
        match r {
            Ok(n) => raised(comps.deep_view(), which as nat) == Ok::<nat, BumpErrorView>(n as nat),
            Err(e) => raised(comps.deep_view(), which as nat) == Err::<nat, BumpErrorView>(e@),
        },
{
    if comps.len() >= which {
        match &comps[which - 1] {
            Component::Numeric(x) => Ok(*x + 1),
            Component::String(s) => Err(BumpError::NonNumericComponent(copy_bytes(s.as_slice()))),
        }
    } else {
        Ok(1)
    }
}

/// Raises the component of the given number.
fn bump_component(comps: &Vec<Component>, which: usize, version: Ghost<Seq<u8>>) -> (r: Result<
    Version,
    BumpError,
>)
    requires
        which >= 1,
        comps.deep_view() == components(version@),
        !(comps.len() >= which && comps[which - 1]@ == ComponentView::Numeric(u64::MAX)),
    ensures
        match r {
            Ok(v) => bumped_component(version@, which as nat) == Ok::<Seq<u8>, BumpErrorView>(v@),
            Err(e) => bumped_component(version@, which as nat) == Err::<Seq<u8>, BumpErrorView>(
                e@,
            ),
        },
{
    let n = match raise(comps, which) {
        Ok(n) => n,
        Err(e) => {
            return Err(e);
        },
    };
    let count: usize = if which > 3 {
        which
    } else {
        3
    };
    let ghost want = raised_parts(comps.deep_view(), which as nat, n as nat);
    let mut parts: Vec<Vec<u8>> = Vec::new();
    let mut k: usize = 0;
    while k < count
        invariant
            0 <= k <= count,
            which >= 1,
            count == want.len(),
            want == raised_parts(comps.deep_view(), which as nat, n as nat),
            parts.deep_view() == want.subrange(0, k as int),
        decreases count - k,
    {
        let piece = if k < which - 1 {
            if k < comps.len() {
                component_bytes(&comps[k])
            } else {
                decimal(0)
            }
        } else if k == which - 1 {
            decimal(n)
        } else {
            decimal(0)
        };
        let ghost before = parts.deep_view();
        parts.push(piece);
        proof {
            assert(piece.deep_view() =~= piece@);
            assert(piece@ == want[k as int]);
            assert(parts.deep_view() =~= before.push(piece@));
            assert(parts.deep_view() =~= want.subrange(0, k + 1));
        }
        k += 1;
    }
    proof {
        assert(want.subrange(0, want.len() as int) =~= want);
    }
    Ok(write_version(&parts))
}

/// The version that follows `ver` on the day that `today` stands for.
pub fn bump_date(ver: &Version, today: u64) -> (r: Result<Version, BumpError>)
    requires
        can_bump(ver@, Bump::DateMajor),
    ensures
        match r {
            Ok(v) => bumped_date(ver@, today) == Ok::<Seq<u8>, BumpErrorView>(v@),
            Err(e) => bumped_date(ver@, today) == Err::<Seq<u8>, BumpErrorView>(e@),
        },
{
    let comps = ver.components();
    let mut parts: Vec<Vec<u8>> = Vec::new();
    let day = decimal(today);
    proof {
        assert(day.deep_view() =~= day@);
    }
    let fresh = if comps.len() == 0 {
        true
    } else {
        match &comps[0] {
            Component::String(s) => {
                return Err(BumpError::NonNumericComponent(copy_bytes(s.as_slice())));
            },
            Component::Numeric(x) => {
                if *x > today {
                    return Err(BumpError::FutureDate(copy_bytes(ver.0.as_slice())));
                }
                *x < today
            },
        }
    };
    let counter = if fresh {
        decimal(0)
    } else {
        match raise(&comps, 2) {
            Ok(n) => decimal(n),
            Err(e) => {
                return Err(e);
            },
        }
    };
    proof {
        assert(counter.deep_view() =~= counter@);
    }
    parts.push(day);
    parts.push(counter);
    proof {
        assert(parts.deep_view() =~= seq![day@, counter@]);
    }
    Ok(write_version(&parts))
}

/// Whether a component is a number above zero.
fn is_positive(c: &Component) -> (r: bool)
    ensures
        r == (c@ matches ComponentView::Numeric(y) && y > 0),
{
    match c {
        Component::Numeric(y) => *y > 0,
        Component::String(_) => false,
    }
}

/// The number of the component that a bump of a part raises.
fn target(comps: &Vec<Component>, how: Bump) -> (r: usize)
    ensures
        r == bump_target(comps.deep_view(), how),
{
    match how {
        Bump::Component(i) => i as usize,
        Bump::DateMajor => 3,
        Bump::Patch => 3,
        _ => {
            let ghost all = comps.deep_view();
            let mut p: usize = 0;
            while p < comps.len() && !is_positive(&comps[p])
                invariant
                    0 <= p <= comps.len(),
                    all == comps.deep_view(),
                    first_positive(all, 0) == first_positive(all, p as int),
                decreases comps.len() - p,
            {
                p += 1;
            }
            let idx: usize = if p < comps.len() {
                p + 1
            } else {
                3
            };
            match how {
                Bump::Major => if idx < 3 {
                    idx
                } else {
                    3
                },
                _ => if idx == 1 {
                    2
                } else {
                    3
                },
            }
        },
    }
}

/// Whether a version can be bumped in the given way.
pub fn may_bump(ver: &Version, how: Bump) -> (r: bool)
    ensures
        r == can_bump(ver@, how),
{
    let comps = ver.components();
    let which: usize = match how {
        Bump::DateMajor => 2,
        _ => target(&comps, how),
    };
    if which < 1 {
        return false;
    }
    if comps.len() >= which {
        match &comps[which - 1] {
            Component::Numeric(x) => *x != u64::MAX,
            Component::String(_) => true,
        }
    } else {
        true
    }
}

/// The version that follows `ver` when the given part is raised.
///
/// For `DateMajor` the day is that of the call, which the contract leaves
/// open; `bump_date` says what follows on a given day.
pub fn bump_version(ver: &Version, how: Bump) -> (r: Result<Version, BumpError>)
    requires
        can_bump(ver@, how),
    ensures
        match how {
            Bump::DateMajor => exists|today: u64|
                match r {
                    Ok(v) => #[trigger] bumped_date(ver@, today) == Ok::<Seq<u8>, BumpErrorView>(
                        v@,
                    ),
                    Err(e) => bumped_date(ver@, today) == Err::<Seq<u8>, BumpErrorView>(e@),
                },
            _ => match r {
                Ok(v) => bumped_component(ver@, bump_target(components(ver@), how)) == Ok::<
                    Seq<u8>,
                    BumpErrorView,
                >(v@),
                Err(e) => bumped_component(ver@, bump_target(components(ver@), how)) == Err::<
                    Seq<u8>,
                    BumpErrorView,
                >(e@),
            },
        },
{
    match how {
        Bump::DateMajor => {
            let (year, month, day) = utc_today();
            let today = day_number(year, month, day);
            let r = bump_date(ver, today);
            proof {
                let witness = today;
                assert(match r {
                    Ok(v) => bumped_date(ver@, witness) == Ok::<Seq<u8>, BumpErrorView>(v@),
                    Err(e) => bumped_date(ver@, witness) == Err::<Seq<u8>, BumpErrorView>(e@),
                });
            }
            r
        },
        _ => {
            let comps = ver.components();
            let which = target(&comps, how);
            bump_component(&comps, which, Ghost(ver@))
        },
    }
}

} // verus!
