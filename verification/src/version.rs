//! Version strings and their order.

use vstd::prelude::*;
use crate::deb_ext::DOT;
use crate::order::Order;
use crate::text::{
    compare_bytes, copy_bytes, digits_value, find_byte, index_of, lemma_index_of, lemma_lex_equal,
    lemma_lex_flip, lemma_lex_transitive, lex_rank, parse_digits,
};

verus! {

/// The letter `v`, which may begin a version.
pub const LETTER_V: u8 = 0x76;

/// One component of a version, as the order sees it.
pub enum ComponentView {
    /// A run of decimal digits that fits in 64 bits, by its number.
    Numeric(u64),
    /// Anything else, by its bytes.
    String(Seq<u8>),
}

/// One component of a version.
#[derive(Debug)]
pub enum Component {
    Numeric(u64),
    String(Vec<u8>),
}

impl View for Component {
    type V = ComponentView;

    open spec fn view(&self) -> ComponentView {
        match self {
            Component::Numeric(n) => ComponentView::Numeric(*n),
            Component::String(s) => ComponentView::String(s@),
        }
    }
}

impl DeepView for Component {
    type V = ComponentView;

    open spec fn deep_view(&self) -> ComponentView {
        self@
    }
}

/// A version, as it is written.
#[derive(Debug)]
pub struct Version(pub Vec<u8>);

impl View for Version {
    type V = Seq<u8>;

    open spec fn view(&self) -> Seq<u8> {
        self.0@
    }
}

impl DeepView for Version {
    type V = Seq<u8>;

    open spec fn deep_view(&self) -> Seq<u8> {
        self.0@
    }
}

/// A version without the `v` that may begin it.
pub open spec fn number_part(text: Seq<u8>) -> Seq<u8> {
    if text.len() > 0 && text[0] == LETTER_V {
        text.drop_first()
    } else {
        text
    }
}

/// The component that a piece of a version is.
pub open spec fn component_of(piece: Seq<u8>) -> ComponentView {
    match digits_value(piece) {
        Some(n) => ComponentView::Numeric(n),
        None => ComponentView::String(piece),
    }
}

/// The components of a non-empty text: its pieces between full stops.
pub open spec fn pieces(text: Seq<u8>) -> Seq<ComponentView>
    decreases text.len(),
{
    let n = index_of(text, DOT);
    if n >= text.len() {
        seq![component_of(text)]
    } else {
        proof {
            lemma_index_of(text, DOT);
        }
        seq![component_of(text.subrange(0, n))] + pieces(text.skip(n + 1))
    }
}

/// The components of a version: the pieces between the full stops of its
/// number part; none where that is empty.
pub open spec fn components(text: Seq<u8>) -> Seq<ComponentView> {
    if number_part(text).len() == 0 {
        Seq::empty()
    } else {
        pieces(number_part(text))
    }
}

/// The order of two components: numbers by their value, strings byte by
/// byte, and a number before a string.
pub open spec fn component_rank(a: ComponentView, b: ComponentView) -> Order {
    match (a, b) {
        (ComponentView::Numeric(x), ComponentView::Numeric(y)) => if x < y {
            Order::Less
        } else if x > y {
            Order::Greater
        } else {
            Order::Equal
        },
        (ComponentView::Numeric(_), ComponentView::String(_)) => Order::Less,
        (ComponentView::String(_), ComponentView::Numeric(_)) => Order::Greater,
        (ComponentView::String(x), ComponentView::String(y)) => lex_rank(x, y),
    }
}

/// The order of two runs of components: the first pair that differs
/// decides, and a run that is a beginning of the other comes first.
pub open spec fn components_rank(a: Seq<ComponentView>, b: Seq<ComponentView>) -> Order
    decreases a.len(),
{
    if a.len() == 0 {
        if b.len() == 0 {
            Order::Equal
        } else {
            Order::Less
        }
    } else if b.len() == 0 {
        Order::Greater
    } else if component_rank(a[0], b[0]) != Order::Equal {
        component_rank(a[0], b[0])
    } else {
        components_rank(a.drop_first(), b.drop_first())
    }
}

/// The order of two versions: that of their components.
pub open spec fn version_rank(a: Seq<u8>, b: Seq<u8>) -> Order {
    components_rank(components(a), components(b))
}

/// Components rank equal exactly when they are the same.
pub proof fn lemma_component_equal(a: ComponentView, b: ComponentView)
    ensures
        component_rank(a, b) == Order::Equal <==> a == b,
{
    match (a, b) {
        (ComponentView::String(x), ComponentView::String(y)) => {
            lemma_lex_equal(x, y);
        },
        _ => {},
    }
}

/// Exchanging two components flips their order.
pub proof fn lemma_component_flip(a: ComponentView, b: ComponentView)
    ensures
        component_rank(b, a) == component_rank(a, b).flip(),
{
    match (a, b) {
        (ComponentView::String(x), ComponentView::String(y)) => {
            lemma_lex_flip(x, y);
        },
        _ => {},
    }
}

/// The order of components is transitive.
pub proof fn lemma_component_transitive(a: ComponentView, b: ComponentView, c: ComponentView)
    requires
        component_rank(a, b) != Order::Greater,
        component_rank(b, c) != Order::Greater,
    ensures
        component_rank(a, c) != Order::Greater,
        (component_rank(a, b) == Order::Less || component_rank(b, c) == Order::Less)
            ==> component_rank(a, c) == Order::Less,
{
    match (a, b, c) {
        (ComponentView::String(x), ComponentView::String(y), ComponentView::String(z)) => {
            lemma_lex_transitive(x, y, z);
        },
        _ => {},
    }
}

/// Runs of components rank equal exactly when they are the same: versions
/// with the same components are one version to the order, and no others.
pub proof fn lemma_components_equal(a: Seq<ComponentView>, b: Seq<ComponentView>)
    ensures
        components_rank(a, b) == Order::Equal <==> a == b,
    decreases a.len(),
{
    if a.len() == 0 || b.len() == 0 {
        if a.len() == 0 && b.len() == 0 {
            assert(a =~= b);
        }
    } else {
        lemma_component_equal(a[0], b[0]);
        lemma_components_equal(a.drop_first(), b.drop_first());
        if a[0] == b[0] && a.drop_first() == b.drop_first() {
            assert(a =~= seq![a[0]] + a.drop_first());
            assert(b =~= seq![b[0]] + b.drop_first());
        }
    }
}

/// Exchanging two runs of components flips their order.
pub proof fn lemma_components_flip(a: Seq<ComponentView>, b: Seq<ComponentView>)
    ensures
        components_rank(b, a) == components_rank(a, b).flip(),
    decreases a.len(),
{
    if a.len() != 0 && b.len() != 0 {
        lemma_component_flip(a[0], b[0]);
        lemma_components_flip(a.drop_first(), b.drop_first());
    }
}

/// The order of runs of components is transitive.
pub proof fn lemma_components_transitive(
    a: Seq<ComponentView>,
    b: Seq<ComponentView>,
    c: Seq<ComponentView>,
)
    requires
        components_rank(a, b) != Order::Greater,
        components_rank(b, c) != Order::Greater,
    ensures
        components_rank(a, c) != Order::Greater,
        (components_rank(a, b) == Order::Less || components_rank(b, c) == Order::Less)
            ==> components_rank(a, c) == Order::Less,
    decreases a.len(),
{
    if a.len() != 0 && b.len() != 0 && c.len() != 0 {
        lemma_component_flip(a[0], b[0]);
        lemma_component_flip(b[0], c[0]);
        lemma_component_equal(a[0], b[0]);
        lemma_component_equal(b[0], c[0]);
        lemma_component_equal(a[0], c[0]);
        if component_rank(a[0], b[0]) == Order::Equal && component_rank(b[0], c[0])
            == Order::Equal {
            lemma_components_transitive(a.drop_first(), b.drop_first(), c.drop_first());
        } else {
            lemma_component_transitive(a[0], b[0], c[0]);
        }
    }
}

/// The order of versions is total and stable: a version ranks equal to
/// itself; exchanging two versions flips their order; the order is
/// transitive; and two versions rank equal exactly when their components
/// are the same.
pub proof fn lemma_version_order(a: Seq<u8>, b: Seq<u8>, c: Seq<u8>)
    ensures
        version_rank(a, a) == Order::Equal,
        version_rank(b, a) == version_rank(a, b).flip(),
        version_rank(a, b) == Order::Equal <==> components(a) == components(b),
        version_rank(a, b) != Order::Greater && version_rank(b, c) != Order::Greater
            ==> version_rank(a, c) != Order::Greater,
        version_rank(a, b) != Order::Greater && version_rank(b, c) != Order::Greater && (
        version_rank(a, b) == Order::Less || version_rank(b, c) == Order::Less) ==> version_rank(
            a,
            c,
        ) == Order::Less,
{
    lemma_components_equal(components(a), components(a));
    lemma_components_equal(components(a), components(b));
    lemma_components_flip(components(a), components(b));
    if version_rank(a, b) != Order::Greater && version_rank(b, c) != Order::Greater {
        lemma_components_transitive(components(a), components(b), components(c));
    }
}

/// The component that a piece of a version is.
fn component(piece: &[u8]) -> (c: Component)
    ensures
        c@ == component_of(piece@),
{
    match parse_digits(piece) {
        Some(n) => Component::Numeric(n),
        None => Component::String(copy_bytes(piece)),
    }
}

/// Computes the order of two components.
fn compare_component(a: &Component, b: &Component) -> (o: Order)
    ensures
        o == component_rank(a@, b@),
{
    match (a, b) {
        (Component::Numeric(x), Component::Numeric(y)) => if *x < *y {
            Order::Less
        } else if *x > *y {
            Order::Greater
        } else {
            Order::Equal
        },
        (Component::Numeric(_), Component::String(_)) => Order::Less,
        (Component::String(_), Component::Numeric(_)) => Order::Greater,
        (Component::String(x), Component::String(y)) => compare_bytes(x.as_slice(), y.as_slice()),
    }
}

impl Version {
    /// The version without the `v` that may begin it.
    pub fn num(&self) -> (r: &[u8])
        ensures
            r@ == number_part(self@),
    {
        let s = self.0.as_slice();
        if s.len() > 0 && s[0] == LETTER_V {
            proof {
                assert(s@.subrange(1, s@.len() as int) =~= s@.drop_first());
            }
            &s[1..s.len()]
        } else {
            s
        }
    }

    /// The components of the version.
    pub fn components(&self) -> (r: Vec<Component>)
        ensures
            r.deep_view() == components(self@),
    {
        let text = self.num();
        let mut out: Vec<Component> = Vec::new();
        if text.len() == 0 {
            proof {
                assert(out.deep_view() =~= components(self@));
            }
            return out;
        }
        let mut pos: usize = 0;
        let mut done = false;
        proof {
            assert(text@.skip(0) =~= text@);
            assert(out.deep_view() + pieces(text@.skip(0)) =~= pieces(text@));
        }
        while !done
            invariant
                0 <= pos <= text.len(),
                !done ==> out.deep_view() + pieces(text@.skip(pos as int)) == pieces(text@),
                done ==> out.deep_view() == pieces(text@),
            decreases text.len() - pos + (if done { 0int } else { 1int }),
        {
            let ghost rest = text@.skip(pos as int);
            let ghost before = out.deep_view();
            let end = find_byte(text, pos, DOT);
            let c = component(&text[pos..end]);
            out.push(c);
            proof {
                lemma_index_of(rest, DOT);
                assert(rest.subrange(0, end - pos) =~= text@.subrange(pos as int, end as int));
                assert(out.deep_view() =~= before.push(c@));
            }
            if end < text.len() {
                proof {
                    assert(rest.skip(end - pos + 1) =~= text@.skip(end + 1));
                    assert(before.push(c@) + pieces(text@.skip(end + 1)) =~= before + pieces(rest));
                }
                pos = end + 1;
            } else {
                proof {
                    assert(rest =~= text@.subrange(pos as int, end as int));
                    assert(before.push(c@) =~= before + pieces(rest));
                }
                done = true;
            }
        }
        out
    }

    /// Computes the order of two versions.
    pub fn compare(&self, other: &Version) -> (o: Order)
        ensures
            o == version_rank(self@, other@),
    {
        let a = self.components();
        let b = other.components();
        let ghost sa = a.deep_view();
        let ghost sb = b.deep_view();
        let mut i: usize = 0;
        proof {
            assert(sa.skip(0) =~= sa);
            assert(sb.skip(0) =~= sb);
        }
        while i < a.len() && i < b.len()
            invariant
                0 <= i <= a.len(),
                i <= b.len(),
                sa == a.deep_view(),
                sb == b.deep_view(),
                sa == components(self@),
                sb == components(other@),
                components_rank(sa, sb) == components_rank(sa.skip(i as int), sb.skip(i as int)),
            decreases a.len() - i,
        {
            proof {
                assert(sa.skip(i as int).drop_first() =~= sa.skip(i + 1));
                assert(sb.skip(i as int).drop_first() =~= sb.skip(i + 1));
                assert(sa.skip(i as int)[0] == a@[i as int]@);
                assert(sb.skip(i as int)[0] == b@[i as int]@);
            }
            match compare_component(&a[i], &b[i]) {
                Order::Less => {
                    return Order::Less;
                },
                Order::Greater => {
                    return Order::Greater;
                },
                Order::Equal => {},
            }
            i += 1;
        }
        if i < b.len() {
            Order::Less
        } else if i < a.len() {
            Order::Greater
        } else {
            Order::Equal
        }
    }
}

} // verus!
