//! Border styles and the border manager: a deduplicating store of border
//! definitions, and the application of border edit payloads.

use crate::container::{alist_distinct, alist_get, alist_has, lemma_alist_push};
use vstd::prelude::*;

verus! {

pub type BorderId = u32;

/// The line style of one border edge.
#[derive(Debug, Clone, Copy, PartialEq, Eq, Structural)]
pub enum BorderStyleType {
    NoneStyle,
    Thin,
    Medium,
    Dashed,
    Dotted,
    Thick,
    Double,
    Hair,
    MediumDashed,
    DashDot,
    MediumDashDot,
    DashDotDot,
    MediumDashDotDot,
    SlantDashDot,
}

#[derive(Debug, Clone, PartialEq, Eq)]
pub struct Color {
    pub rgb: Option<String>,
}

impl Color {
    pub fn new_with_rgb(rgb: String) -> (r: Color)
        ensures
            r.rgb is Some && r.rgb.unwrap()@ == rgb@,
    {
        Color { rgb: Some(rgb) }
    }
}

#[derive(Debug, Clone, PartialEq, Eq)]
pub struct BorderPr {
    pub color: Option<Color>,
    pub style: BorderStyleType,
}

#[derive(Debug, Clone, PartialEq, Eq)]
pub struct Border {
    pub left: Option<BorderPr>,
    pub right: Option<BorderPr>,
    pub top: Option<BorderPr>,
    pub bottom: Option<BorderPr>,
    pub diagonal_up: Option<bool>,
    pub diagonal_down: Option<bool>,
    pub outline: bool,
}

/// One border edit.
#[derive(Debug, Clone, PartialEq, Eq)]
pub enum BorderPayloadType {
    LeftBorderColor(String),
    RightBorderColor(String),
    TopBorderColor(String),
    BottomBorderColor(String),
    LeftBorderStyle(BorderStyleType),
    RightBorderStyle(BorderStyleType),
    TopBorderStyle(BorderStyleType),
    BottomBorderStyle(BorderStyleType),
    BorderDiagonalUp(bool),
    BorderDiagonalDown(bool),
    Outline(bool),
}

pub struct BorderPayload {
    pub id: BorderId,
    pub change: BorderPayloadType,
}

/// Equality of colours up to string contents.
pub open spec fn color_eqv(a: Option<Color>, b: Option<Color>) -> bool {
    match (a, b) {
        (None, None) => true,
        (Some(x), Some(y)) => match (x.rgb, y.rgb) {
            (None, None) => true,
            (Some(p), Some(q)) => p@ == q@,
            _ => false,
        },
        _ => false,
    }
}

/// Equality of border edges up to string contents.
pub open spec fn pr_eqv(a: Option<BorderPr>, b: Option<BorderPr>) -> bool {
    match (a, b) {
        (None, None) => true,
        (Some(x), Some(y)) => x.style == y.style && color_eqv(x.color, y.color),
        _ => false,
    }
}

/// Equality of borders up to string contents.
pub open spec fn border_eqv(a: Border, b: Border) -> bool {
    &&& pr_eqv(a.left, b.left)
    &&& pr_eqv(a.right, b.right)
    &&& pr_eqv(a.top, b.top)
    &&& pr_eqv(a.bottom, b.bottom)
    &&& a.diagonal_up == b.diagonal_up
    &&& a.diagonal_down == b.diagonal_down
    &&& a.outline == b.outline
}

/// Setting an edge's colour: the colour is written into the edge, which is
/// created with no line style when absent.
pub open spec fn spec_set_color(pr: Option<BorderPr>, s: String) -> Option<BorderPr> {
    match pr {
        Some(p) => Some(BorderPr { color: Some(Color { rgb: Some(s) }), style: p.style }),
        None => Some(
            BorderPr { color: Some(Color { rgb: Some(s) }), style: BorderStyleType::NoneStyle },
        ),
    }
}

/// Setting an edge's line style: the style is written into the edge, which
/// is created with no colour when absent.
pub open spec fn spec_set_style(pr: Option<BorderPr>, st: BorderStyleType) -> Option<BorderPr> {
    match pr {
        Some(p) => Some(BorderPr { color: p.color, style: st }),
        None => Some(BorderPr { color: None, style: st }),
    }
}

/// What one border edit does to a border.
pub open spec fn spec_handle(b: Border, ty: BorderPayloadType) -> Border {
    match ty {
        BorderPayloadType::LeftBorderColor(s) => Border { left: spec_set_color(b.left, s), ..b },
        BorderPayloadType::RightBorderColor(s) => Border { right: spec_set_color(b.right, s), ..b },
        BorderPayloadType::TopBorderColor(s) => Border { top: spec_set_color(b.top, s), ..b },
        BorderPayloadType::BottomBorderColor(s) => Border {
            bottom: spec_set_color(b.bottom, s),
            ..b
        },
        BorderPayloadType::LeftBorderStyle(st) => Border { left: spec_set_style(b.left, st), ..b },
        BorderPayloadType::RightBorderStyle(st) => Border {
            right: spec_set_style(b.right, st),
            ..b
        },
        BorderPayloadType::TopBorderStyle(st) => Border { top: spec_set_style(b.top, st), ..b },
        BorderPayloadType::BottomBorderStyle(st) => Border {
            bottom: spec_set_style(b.bottom, st),
            ..b
        },
        BorderPayloadType::BorderDiagonalUp(v) => Border { diagonal_up: Some(v), ..b },
        BorderPayloadType::BorderDiagonalDown(v) => Border { diagonal_down: Some(v), ..b },
        BorderPayloadType::Outline(v) => Border { outline: v, ..b },
    }
}

/// Applies one border edit in place.
pub fn handle(border: &mut Border, ty: BorderPayloadType)
    ensures
        *final(border) == spec_handle(*old(border), ty),
{
    match ty {
        BorderPayloadType::LeftBorderColor(s) => {
            match &mut border.left {
                Some(pr) => {
                    pr.color = Some(Color::new_with_rgb_exact(s));
                },
                None => {
                    let color = Color::new_with_rgb_exact(s);
                    border.left = Some(
                        BorderPr { color: Some(color), style: BorderStyleType::NoneStyle },
                    );
                },
            }
        },
        BorderPayloadType::RightBorderColor(s) => {
            match &mut border.right {
                Some(pr) => {
                    pr.color = Some(Color::new_with_rgb_exact(s));
                },
                None => {
                    let color = Color::new_with_rgb_exact(s);
                    border.right = Some(
                        BorderPr { color: Some(color), style: BorderStyleType::NoneStyle },
                    );
                },
            }
        },
        BorderPayloadType::TopBorderColor(s) => {
            match &mut border.top {
                Some(pr) => {
                    pr.color = Some(Color::new_with_rgb_exact(s));
                },
                None => {
                    let color = Color::new_with_rgb_exact(s);
                    border.top = Some(
                        BorderPr { color: Some(color), style: BorderStyleType::NoneStyle },
                    );
                },
            }
        },
        BorderPayloadType::BottomBorderColor(s) => {
            match &mut border.bottom {
                Some(pr) => {
                    pr.color = Some(Color::new_with_rgb_exact(s));
                },
                None => {
                    let color = Color::new_with_rgb_exact(s);
                    border.bottom = Some(
                        BorderPr { color: Some(color), style: BorderStyleType::NoneStyle },
                    );
                },
            }
        },
        BorderPayloadType::LeftBorderStyle(st) => {
            match &mut border.left {
                Some(pr) => {
                    pr.style = st;
                },
                None => {
                    border.left = Some(BorderPr { color: None, style: st });
                },
            }
        },
        BorderPayloadType::RightBorderStyle(st) => {
            match &mut border.right {
                Some(pr) => {
                    pr.style = st;
                },
                None => {
                    border.right = Some(BorderPr { color: None, style: st });
                },
            }
        },
        BorderPayloadType::TopBorderStyle(st) => {
            match &mut border.top {
                Some(pr) => {
                    pr.style = st;
                },
                None => {
                    border.top = Some(BorderPr { color: None, style: st });
                },
            }
        },
        BorderPayloadType::BottomBorderStyle(st) => {
            match &mut border.bottom {
                Some(pr) => {
                    pr.style = st;
                },
                None => {
                    border.bottom = Some(BorderPr { color: None, style: st });
                },
            }
        },
        BorderPayloadType::BorderDiagonalUp(v) => {
            border.diagonal_up = Some(v);
        },
        BorderPayloadType::BorderDiagonalDown(v) => {
            border.diagonal_down = Some(v);
        },
        BorderPayloadType::Outline(v) => {
            border.outline = v;
        },
    }
}

impl Color {
    /// A colour holding exactly the given string.
    pub fn new_with_rgb_exact(rgb: String) -> (r: Color)
        ensures
            r == (Color { rgb: Some(rgb) }),
    {
        Color { rgb: Some(rgb) }
    }
}

/// The default border: every edge absent, no diagonals, no outline.
pub fn get_init_border() -> (r: Border)
    ensures
        r == (Border {
            left: None,
            right: None,
            top: None,
            bottom: None,
            diagonal_up: None,
            diagonal_down: None,
            outline: false,
        }),
{
    Border {
        left: None,
        right: None,
        top: None,
        bottom: None,
        diagonal_up: None,
        diagonal_down: None,
        outline: false,
    }
}

/// A deduplicating store of borders: equal borders share one id.
pub struct BorderManager {
    pub data: Vec<(BorderId, Border)>,
    pub next_available: BorderId,
}

impl BorderManager {
    pub open spec fn wf(self) -> bool {
        &&& alist_distinct(self.data@)
        &&& forall|i: int|
            0 <= i < self.data@.len() ==> (#[trigger] self.data@[i]).0 < self.next_available
    }

    pub fn new(start: BorderId) -> (r: Self)
        ensures
            r.wf(),
            r.data@.len() == 0,
            r.next_available == start,
    {
        BorderManager { data: Vec::new(), next_available: start }
    }

    /// The stored border under the id, if any.
    pub fn get_data<'a>(&'a self, id: BorderId) -> (r: Option<&'a Border>)
        requires
            self.wf(),
        ensures
            match r {
                Some(b) => alist_has(self.data@, id) && *b == alist_get(self.data@, id),
                None => !alist_has(self.data@, id),
            },
    {
        let n = self.data.len();
        let mut i: usize = 0;
        while i < n
            invariant
                n == self.data@.len(),
                i <= n,
                self.wf(),
                forall|j: int| 0 <= j < i ==> self.data@[j].0 != id,
            decreases n - i,
        {
            if self.data[i].0 == id {
                proof {
                    assert(alist_has(self.data@, id));
                    let j = choose|j: int| 0 <= j < self.data@.len() && self.data@[j].0 == id;
                    assert(j == i);
                }
                return Some(&self.data[i].1);
            }
            i = i + 1;
        }
        None
    }

    /// The id of a border equal to the given one, registering it when it is
    /// new.  Equal borders always share one id.
    pub fn get_id(&mut self, item: Border) -> (r: BorderId)
        requires
            old(self).wf(),
            old(self).next_available < u32::MAX,
        ensures
            final(self).wf(),
            exists|j: int|
                0 <= j < final(self).data@.len() && (#[trigger] final(self).data@[j]).0 == r
                    && border_eqv(final(self).data@[j].1, item),
            (exists|j: int|
                0 <= j < old(self).data@.len() && border_eqv(
                    (#[trigger] old(self).data@[j]).1,
                    item,
                )) ==> final(self).data@ == old(self).data@ && final(self).next_available == old(
                self,
            ).next_available,
            !(exists|j: int|
                0 <= j < old(self).data@.len() && border_eqv(
                    (#[trigger] old(self).data@[j]).1,
                    item,
                )) ==> final(self).data@ == old(self).data@.push((old(self).next_available, item))
                && r == old(self).next_available,
    {
        let n = self.data.len();
        let mut i: usize = 0;
        while i < n
            invariant
                n == self.data@.len(),
                i <= n,
                self == old(self),
                old(self).wf(),
                old(self).next_available < u32::MAX,
                forall|j: int| 0 <= j < i ==> !border_eqv((#[trigger] self.data@[j]).1, item),
            decreases n - i,
        {
            if border_eq(&self.data[i].1, &item) {
                return self.data[i].0;
            }
            i = i + 1;
        }
        let r = self.next_available;
        proof {
            assert(!alist_has(self.data@, r)) by {
                if alist_has(self.data@, r) {
                    let j = choose|j: int|
                        0 <= j < self.data@.len() && self.data@[j].0 == r;
                    assert(self.data@[j].0 < r);
                }
            }
            lemma_alist_push(self.data@, r, item);
        }
        self.data.push((r, item));
        self.next_available = r + 1;
        proof {
            assert(self.data@[self.data@.len() - 1] == (r, alist_get(self.data@, r)));
            assert(border_eqv(self.data@[self.data@.len() - 1].1, self.data@[self.data@.len()
                - 1].1));
            assert forall|j: int|
                0 <= j < self.data@.len() implies (#[trigger] self.data@[j]).0
                < self.next_available by {
                if j < self.data@.len() - 1 {
                    assert(self.data@[j] == old(self).data@[j]);
                }
            }
        }
        r
    }

    /// Applies a border edit to the stored base border and registers the
    /// result; an unknown base id yields id zero and no change.
    pub fn execute(self, payload: &BorderPayload) -> (r: (Self, BorderId))
        requires
            self.wf(),
            self.next_available < u32::MAX,
        ensures
            r.0.wf(),
            !alist_has(self.data@, payload.id) ==> r.0.data@ == self.data@ && r.1 == 0,
            alist_has(self.data@, payload.id) ==> exists|j: int|
                0 <= j < r.0.data@.len() && (#[trigger] r.0.data@[j]).0 == r.1 && border_eqv(
                    r.0.data@[j].1,
                    spec_handle(alist_get(self.data@, payload.id), payload.change),
                ),
            r.0.data@ == self.data@ || (r.0.data@.len() == self.data@.len() + 1
                && r.0.data@.subrange(0, self.data@.len() as int) == self.data@
                && r.0.data@.last().0 == self.next_available),
            forall|id2: BorderId|
                #[trigger] alist_has(self.data@, id2) ==> alist_has(r.0.data@, id2) && alist_get(
                    r.0.data@,
                    id2,
                ) == alist_get(self.data@, id2),
    {
        let mut res = self;
        let base = payload.id;
        let found = match res.get_data(base) {
            Some(border) => {
                let b = clone_border(border);
                Some(b)
            },
            None => None,
        };
        match found {
            Some(mut new_border) => {
                let change = clone_payload_type(&payload.change);
                let ghost pre = new_border;
                handle(&mut new_border, change);
                let ghost nb = new_border;
                let new_id = res.get_id(new_border);
                proof {
                    lemma_handle_respects_eqv(
                        pre,
                        alist_get(self.data@, payload.id),
                        change,
                        payload.change,
                    );
                    let target = spec_handle(alist_get(self.data@, payload.id), payload.change);
                    let j = choose|j: int|
                        0 <= j < res.data@.len() && (#[trigger] res.data@[j]).0 == new_id
                            && border_eqv(res.data@[j].1, nb);
                    assert(border_eqv(res.data@[j].1, target));
                    assert(0 <= j < res.data@.len() && res.data@[j].0 == new_id && border_eqv(
                        res.data@[j].1,
                        target,
                    ));
                    assert(exists|j2: int|
                        0 <= j2 < res.data@.len() && (#[trigger] res.data@[j2]).0 == new_id
                            && border_eqv(res.data@[j2].1, target));
                    if res.data@ != self.data@ {
                        assert(res.data@ == self.data@.push((self.next_available, nb)));
                        assert(res.data@.subrange(0, self.data@.len() as int) =~= self.data@);
                        assert(!alist_has(self.data@, self.next_available)) by {
                            if alist_has(self.data@, self.next_available) {
                                let j = choose|j: int|
                                    0 <= j < self.data@.len() && self.data@[j].0
                                        == self.next_available;
                                assert(self.data@[j].0 < self.next_available);
                            }
                        }
                        lemma_alist_push(self.data@, self.next_available, nb);
                        assert forall|id2: BorderId| #[trigger] alist_has(
                            self.data@,
                            id2,
                        ) implies alist_has(res.data@, id2) && alist_get(res.data@, id2)
                            == alist_get(self.data@, id2) by {
                            assert(id2 != self.next_available);
                        }
                    }
                }
                (res, new_id)
            },
            None => (res, 0),
        }
    }
}

/// Applying equal edits to equal borders gives equal borders.
#[verifier::rlimit(50)]
pub proof fn lemma_handle_respects_eqv(
    a: Border,
    b: Border,
    ta: BorderPayloadType,
    tb: BorderPayloadType,
)
    requires
        border_eqv(a, b),
        payload_type_eqv(ta, tb),
    ensures
        border_eqv(spec_handle(a, ta), spec_handle(b, tb)),
{
    match ta {
        BorderPayloadType::LeftBorderColor(x) => {
            assert(tb is LeftBorderColor);
        },
        BorderPayloadType::RightBorderColor(x) => {
            assert(tb is RightBorderColor);
        },
        BorderPayloadType::TopBorderColor(x) => {
            assert(tb is TopBorderColor);
        },
        BorderPayloadType::BottomBorderColor(x) => {
            assert(tb is BottomBorderColor);
        },
        BorderPayloadType::LeftBorderStyle(x) => {
            assert(tb is LeftBorderStyle);
        },
        BorderPayloadType::RightBorderStyle(x) => {
            assert(tb is RightBorderStyle);
        },
        BorderPayloadType::TopBorderStyle(x) => {
            assert(tb is TopBorderStyle);
        },
        BorderPayloadType::BottomBorderStyle(x) => {
            assert(tb is BottomBorderStyle);
        },
        BorderPayloadType::BorderDiagonalUp(x) => {
            assert(tb is BorderDiagonalUp);
        },
        BorderPayloadType::BorderDiagonalDown(x) => {
            assert(tb is BorderDiagonalDown);
        },
        BorderPayloadType::Outline(x) => {
            assert(tb is Outline);
        },
    }
}

/// Equality of border edits up to string contents.
pub open spec fn payload_type_eqv(a: BorderPayloadType, b: BorderPayloadType) -> bool {
    match (a, b) {
        (BorderPayloadType::LeftBorderColor(x), BorderPayloadType::LeftBorderColor(y)) => x@ == y@,
        (BorderPayloadType::RightBorderColor(x), BorderPayloadType::RightBorderColor(y)) => x@
            == y@,
        (BorderPayloadType::TopBorderColor(x), BorderPayloadType::TopBorderColor(y)) => x@ == y@,
        (BorderPayloadType::BottomBorderColor(x), BorderPayloadType::BottomBorderColor(y)) => x@
            == y@,
        (BorderPayloadType::LeftBorderStyle(x), BorderPayloadType::LeftBorderStyle(y)) => x == y,
        (BorderPayloadType::RightBorderStyle(x), BorderPayloadType::RightBorderStyle(y)) => x == y,
        (BorderPayloadType::TopBorderStyle(x), BorderPayloadType::TopBorderStyle(y)) => x == y,
        (BorderPayloadType::BottomBorderStyle(x), BorderPayloadType::BottomBorderStyle(y)) => x
            == y,
        (BorderPayloadType::BorderDiagonalUp(x), BorderPayloadType::BorderDiagonalUp(y)) => x == y,
        (BorderPayloadType::BorderDiagonalDown(x), BorderPayloadType::BorderDiagonalDown(y)) => x
            == y,
        (BorderPayloadType::Outline(x), BorderPayloadType::Outline(y)) => x == y,
        _ => false,
    }
}

/// A copy of a border edit with the same contents.
pub fn clone_payload_type(t: &BorderPayloadType) -> (r: BorderPayloadType)
    ensures
        payload_type_eqv(r, *t),
{
    match t {
        BorderPayloadType::LeftBorderColor(s) => BorderPayloadType::LeftBorderColor(
            crate::id_manager::clone_string(s),
        ),
        BorderPayloadType::RightBorderColor(s) => BorderPayloadType::RightBorderColor(
            crate::id_manager::clone_string(s),
        ),
        BorderPayloadType::TopBorderColor(s) => BorderPayloadType::TopBorderColor(
            crate::id_manager::clone_string(s),
        ),
        BorderPayloadType::BottomBorderColor(s) => BorderPayloadType::BottomBorderColor(
            crate::id_manager::clone_string(s),
        ),
        BorderPayloadType::LeftBorderStyle(st) => BorderPayloadType::LeftBorderStyle(*st),
        BorderPayloadType::RightBorderStyle(st) => BorderPayloadType::RightBorderStyle(*st),
        BorderPayloadType::TopBorderStyle(st) => BorderPayloadType::TopBorderStyle(*st),
        BorderPayloadType::BottomBorderStyle(st) => BorderPayloadType::BottomBorderStyle(*st),
        BorderPayloadType::BorderDiagonalUp(v) => BorderPayloadType::BorderDiagonalUp(*v),
        BorderPayloadType::BorderDiagonalDown(v) => BorderPayloadType::BorderDiagonalDown(*v),
        BorderPayloadType::Outline(v) => BorderPayloadType::Outline(*v),
    }
}

/// A copy of an edge with the same contents.
fn clone_pr(p: &Option<BorderPr>) -> (r: Option<BorderPr>)
    ensures
        pr_eqv(r, *p),
{
    match p {
        None => None,
        Some(pr) => {
            let color = match &pr.color {
                None => None,
                Some(c) => Some(
                    Color {
                        rgb: match &c.rgb {
                            None => None,
                            Some(s) => Some(crate::id_manager::clone_string(s)),
                        },
                    },
                ),
            };
            Some(BorderPr { color, style: pr.style })
        },
    }
}

/// A copy of a border with the same contents.
pub fn clone_border(b: &Border) -> (r: Border)
    ensures
        border_eqv(r, *b),
{
    Border {
        left: clone_pr(&b.left),
        right: clone_pr(&b.right),
        top: clone_pr(&b.top),
        bottom: clone_pr(&b.bottom),
        diagonal_up: b.diagonal_up,
        diagonal_down: b.diagonal_down,
        outline: b.outline,
    }
}

/// Whether two borders hold the same contents.
pub fn border_eq(a: &Border, b: &Border) -> (r: bool)
    ensures
        r == border_eqv(*a, *b),
{
    pr_eq(&a.left, &b.left) && pr_eq(&a.right, &b.right) && pr_eq(&a.top, &b.top) && pr_eq(
        &a.bottom,
        &b.bottom,
    ) && opt_bool_eq(&a.diagonal_up, &b.diagonal_up) && opt_bool_eq(
        &a.diagonal_down,
        &b.diagonal_down,
    ) && a.outline == b.outline
}

/// Whether two optional flags hold the same value.
fn opt_bool_eq(a: &Option<bool>, b: &Option<bool>) -> (r: bool)
    ensures
        r == (*a == *b),
{
    match (a, b) {
        (None, None) => true,
        (Some(x), Some(y)) => *x == *y,
        _ => false,
    }
}

/// Whether two edges hold the same contents.
fn pr_eq(a: &Option<BorderPr>, b: &Option<BorderPr>) -> (r: bool)
    ensures
        r == pr_eqv(*a, *b),
{
    match (a, b) {
        (None, None) => true,
        (Some(x), Some(y)) => {
            let colors = match (&x.color, &y.color) {
                (None, None) => true,
                (Some(p), Some(q)) => match (&p.rgb, &q.rgb) {
                    (None, None) => true,
                    (Some(s1), Some(s2)) => crate::id_manager::str_eq(s1.as_str(), s2.as_str()),
                    _ => false,
                },
                _ => false,
            };
            colors && x.style == y.style
        },
        _ => false,
    }
}

} // verus!
