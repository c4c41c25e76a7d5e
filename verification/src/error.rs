//! Errors of tensor operations and the checks that produce them.
use crate::layout::{copy_dims, copy_strides, row_major_strides, same_dims, Layout};
use crate::position::{
    self, abs_int, coord_in_bounds, norm_coord, stride_magnitude, Position,
};
use crate::text::{
    decimal, ints_of_isize, list_text, push_decimal, push_isize_list, push_signed, push_text,
    signed_decimal,
};
use std::collections::HashSet;
use vstd::prelude::*;
use vstd::string::StringSliceAdditionalSpecFns;

verus! {

/// The kind of a tensor operation error.
#[derive(Debug)]
pub enum ErrorKind {
    /// Mutable components would alias between or within tensors or views.
    Alias,
    /// The shapes were expected to be broadcast compatible, but they weren't.
    BroadcastMismatch,
    /// The tensor doesn't fit in the given buffer.
    BufferTooSmall { available: usize, required: usize },
    /// The tensors were expected to contain the same number of components, but they didn't.
    CountMismatch,
    /// The component count is greater than `usize::MAX`.
    CountOverflow,
    /// A specific dimension didn't match.
    DimMismatch(isize),
    /// A dim is greater than `isize::MAX`.
    DimOverflow,
    /// A collection of tensors was expected to be non empty.
    EmptyCollection,
    /// A tensor shape was expected to be non empty.
    EmptyTensor,
    /// An axis index was out of bounds for a tensor's rank.
    InvalidIndex(isize),
    /// The layout should have been valid at this point.
    InvalidLayout,
    /// The length when laid out in a buffer is greater than `isize::MAX`.
    LenOverflow,
    /// Something else happened; the text describes it.
    Other(String),
    /// The position was outside the tensor.
    OutOfBounds(Position),
    /// The ranks were expected to be the same, but they weren't.
    RankMismatch,
    /// The shapes were expected to be the same, but they weren't.
    ShapeMismatch,
    /// The count was expected to be equal to the contained value.
    SpecificCountMismatch(usize),
    /// The dim of the axis at `index` was expected to be `expectation`.
    SpecificDimMismatch { expectation: usize, index: isize },
    /// The rank was expected to be equal to the contained value.
    SpecificRankMismatch(usize),
    /// The operation is not defined for this input, for the contained reason.
    Undefined(&'static str),
    /// Placeholder for a kind not yet set.
    Unknown,
}

/// The mathematical content of an `ErrorKind`.
pub enum KindView {
    Alias,
    BroadcastMismatch,
    BufferTooSmall { available: usize, required: usize },
    CountMismatch,
    CountOverflow,
    DimMismatch(isize),
    DimOverflow,
    EmptyCollection,
    EmptyTensor,
    InvalidIndex(isize),
    InvalidLayout,
    LenOverflow,
    Other(Seq<char>),
    OutOfBounds(Seq<isize>),
    RankMismatch,
    ShapeMismatch,
    SpecificCountMismatch(usize),
    SpecificDimMismatch { expectation: usize, index: isize },
    SpecificRankMismatch(usize),
    Undefined(Seq<char>),
    Unknown,
}

impl View for ErrorKind {
    type V = KindView;

    open spec fn view(&self) -> KindView {
        match self {
            ErrorKind::Alias => KindView::Alias,
            ErrorKind::BroadcastMismatch => KindView::BroadcastMismatch,
            ErrorKind::BufferTooSmall { available, required } => KindView::BufferTooSmall {
                available: *available,
                required: *required,
            },
            ErrorKind::CountMismatch => KindView::CountMismatch,
            ErrorKind::CountOverflow => KindView::CountOverflow,
            ErrorKind::DimMismatch(i) => KindView::DimMismatch(*i),
            ErrorKind::DimOverflow => KindView::DimOverflow,
            ErrorKind::EmptyCollection => KindView::EmptyCollection,
            ErrorKind::EmptyTensor => KindView::EmptyTensor,
            ErrorKind::InvalidIndex(i) => KindView::InvalidIndex(*i),
            ErrorKind::InvalidLayout => KindView::InvalidLayout,
            ErrorKind::LenOverflow => KindView::LenOverflow,
            ErrorKind::Other(s) => KindView::Other(s@),
            ErrorKind::OutOfBounds(p) => KindView::OutOfBounds(p@),
            ErrorKind::RankMismatch => KindView::RankMismatch,
            ErrorKind::ShapeMismatch => KindView::ShapeMismatch,
            ErrorKind::SpecificCountMismatch(c) => KindView::SpecificCountMismatch(*c),
            ErrorKind::SpecificDimMismatch { expectation, index } =>
                KindView::SpecificDimMismatch { expectation: *expectation, index: *index },
            ErrorKind::SpecificRankMismatch(r) => KindView::SpecificRankMismatch(*r),
            ErrorKind::Undefined(s) => KindView::Undefined(s@),
            ErrorKind::Unknown => KindView::Unknown,
        }
    }
}

impl Clone for ErrorKind {
    fn clone(&self) -> (r: Self)
        ensures
            r@ == self@,
    {
        match self {
            ErrorKind::Alias => ErrorKind::Alias,
            ErrorKind::BroadcastMismatch => ErrorKind::BroadcastMismatch,
            ErrorKind::BufferTooSmall { available, required } => ErrorKind::BufferTooSmall {
                available: *available,
                required: *required,
            },
            ErrorKind::CountMismatch => ErrorKind::CountMismatch,
            ErrorKind::CountOverflow => ErrorKind::CountOverflow,
            ErrorKind::DimMismatch(i) => ErrorKind::DimMismatch(*i),
            ErrorKind::DimOverflow => ErrorKind::DimOverflow,
            ErrorKind::EmptyCollection => ErrorKind::EmptyCollection,
            ErrorKind::EmptyTensor => ErrorKind::EmptyTensor,
            ErrorKind::InvalidIndex(i) => ErrorKind::InvalidIndex(*i),
            ErrorKind::InvalidLayout => ErrorKind::InvalidLayout,
            ErrorKind::LenOverflow => ErrorKind::LenOverflow,
            ErrorKind::Other(s) => ErrorKind::Other(s.clone()),
            ErrorKind::OutOfBounds(p) => ErrorKind::OutOfBounds(p.clone()),
            ErrorKind::RankMismatch => ErrorKind::RankMismatch,
            ErrorKind::ShapeMismatch => ErrorKind::ShapeMismatch,
            ErrorKind::SpecificCountMismatch(c) => ErrorKind::SpecificCountMismatch(*c),
            ErrorKind::SpecificDimMismatch { expectation, index } =>
                ErrorKind::SpecificDimMismatch { expectation: *expectation, index: *index },
            ErrorKind::SpecificRankMismatch(r) => ErrorKind::SpecificRankMismatch(*r),
            ErrorKind::Undefined(s) => ErrorKind::Undefined(*s),
            ErrorKind::Unknown => ErrorKind::Unknown,
        }
    }
}

/// Whether two strings have the same bytes.
fn same_text(a: &str, b: &str) -> (r: bool)
    ensures
        r == (a.spec_bytes() == b.spec_bytes()),
{
    let x = a.as_bytes();
    let y = b.as_bytes();
    if x.len() != y.len() {
        return false;
    }
    let mut i: usize = 0;
    while i < x.len()
        invariant
            x@ == a.spec_bytes(),
            y@ == b.spec_bytes(),
            x@.len() == y@.len(),
            i <= x@.len(),
            forall|j: int| 0 <= j < i ==> x@[j] == y@[j],
        decreases x@.len() - i,
    {
        if x[i] != y[i] {
            return false;
        }
        i = i + 1;
    }
    assert(x@ =~= y@);
    true
}

impl PartialEq for ErrorKind {
    fn eq(&self, other: &Self) -> (r: bool) {
        match (self, other) {
            (ErrorKind::Alias, ErrorKind::Alias) => true,
            (ErrorKind::BroadcastMismatch, ErrorKind::BroadcastMismatch) => true,
            (
                ErrorKind::BufferTooSmall { available: ax, required: ix },
                ErrorKind::BufferTooSmall { available: bx, required: jx },
            ) => *ax == *bx && *ix == *jx,
            (ErrorKind::CountMismatch, ErrorKind::CountMismatch) => true,
            (ErrorKind::CountOverflow, ErrorKind::CountOverflow) => true,
            (ErrorKind::DimMismatch(a), ErrorKind::DimMismatch(b)) => *a == *b,
            (ErrorKind::DimOverflow, ErrorKind::DimOverflow) => true,
            (ErrorKind::EmptyCollection, ErrorKind::EmptyCollection) => true,
            (ErrorKind::EmptyTensor, ErrorKind::EmptyTensor) => true,
            (ErrorKind::InvalidIndex(a), ErrorKind::InvalidIndex(b)) => *a == *b,
            (ErrorKind::InvalidLayout, ErrorKind::InvalidLayout) => true,
            (ErrorKind::LenOverflow, ErrorKind::LenOverflow) => true,
            (ErrorKind::Other(_), ErrorKind::Other(_)) => false,
            (ErrorKind::OutOfBounds(a), ErrorKind::OutOfBounds(b)) => a == b,
            (ErrorKind::RankMismatch, ErrorKind::RankMismatch) => true,
            (ErrorKind::ShapeMismatch, ErrorKind::ShapeMismatch) => true,
            (ErrorKind::SpecificCountMismatch(a), ErrorKind::SpecificCountMismatch(b)) => *a == *b,
            (
                ErrorKind::SpecificDimMismatch { expectation: ax, index: ix },
                ErrorKind::SpecificDimMismatch { expectation: bx, index: jx },
            ) => *ax == *bx && *ix == *jx,
            (ErrorKind::SpecificRankMismatch(a), ErrorKind::SpecificRankMismatch(b)) => *a == *b,
            (ErrorKind::Undefined(a), ErrorKind::Undefined(b)) => same_text(a, b),
            (ErrorKind::Unknown, ErrorKind::Unknown) => true,
            (_, _) => false,
        }
    }
}

impl vstd::std_specs::cmp::PartialEqSpecImpl for ErrorKind {
    open spec fn obeys_eq_spec() -> bool {
        true
    }

    /// Equal kinds with equal contents, compared by bytes for `Undefined`; an `Other` kind
    /// equals nothing.
    open spec fn eq_spec(&self, other: &Self) -> bool {
        match (self, other) {
            (ErrorKind::Undefined(a), ErrorKind::Undefined(b)) => a.spec_bytes() == b.spec_bytes(),
            (ErrorKind::Other(_), _) => false,
            _ => self@ == other@,
        }
    }
}

impl Default for ErrorKind {
    fn default() -> (r: Self)
        ensures
            r@ == KindView::Unknown,
    {
        ErrorKind::Unknown
    }
}

/// A tensor operation error: what went wrong, in which operation, and the layouts involved.
#[derive(Debug)]
pub struct Error {
    layout: Layout,
    kind: ErrorKind,
    op: &'static str,
    rhslayout: Option<Layout>,
}

/// Result of a tensor operation.
pub type Result<T> = core::result::Result<T, Error>;

impl Error {
    /// The kind of the error.
    pub closed spec fn spec_kind(&self) -> KindView {
        self.kind@
    }

    /// The name of the failed operation.
    pub closed spec fn spec_op(&self) -> Seq<char> {
        self.op@
    }

    /// The layout the error concerns.
    pub closed spec fn spec_layout(&self) -> Layout {
        self.layout
    }

    /// The second layout involved, if any.
    pub closed spec fn spec_rhs(&self) -> Option<Layout> {
        self.rhslayout
    }

    /// The error has the given kind and operation, concerns a layout with the given dims and
    /// strides, and has no second layout.
    pub open spec fn describes(
        &self,
        kind: KindView,
        op: Seq<char>,
        dims: Seq<usize>,
        strides: Seq<isize>,
    ) -> bool {
        &&& self.spec_kind() == kind
        &&& self.spec_op() == op
        &&& self.spec_layout().dims_view() == dims
        &&& self.spec_layout().strides_view() == strides
        &&& self.spec_rhs() is None
    }

    /// Like `describes`, with a second layout of the given dims and strides.
    pub open spec fn describes_pair(
        &self,
        kind: KindView,
        op: Seq<char>,
        dims: Seq<usize>,
        strides: Seq<isize>,
        rdims: Seq<usize>,
        rstrides: Seq<isize>,
    ) -> bool {
        &&& self.spec_kind() == kind
        &&& self.spec_op() == op
        &&& self.spec_layout().dims_view() == dims
        &&& self.spec_layout().strides_view() == strides
        &&& self.spec_rhs() matches Some(r) && r.dims_view() == rdims && r.strides_view()
            == rstrides
    }
}

/// The message of an error kind.
pub open spec fn kind_text(k: KindView) -> Seq<char> {
    match k {
        KindView::Alias => "mutable components may not alias"@,
        KindView::BroadcastMismatch => "tensor shapes were expected to be broadcast compatible"@,
        KindView::BufferTooSmall { available, required } => "buffer len is "@ + decimal(available as nat)
            + " but tensor len is "@ + decimal(required as nat),
        KindView::CountMismatch => "tensors were expected to have the same number of components"@,
        KindView::CountOverflow => "component count must not exceed usize::MAX"@,
        KindView::DimMismatch(ix) => "the dims for index "@ + signed_decimal(ix as int) + " were expected to match"@,
        KindView::DimOverflow => "individual dims may not exceed isize::MAX"@,
        KindView::EmptyCollection => "expected a non empty collection"@,
        KindView::EmptyTensor => "expected a non empty tensor"@,
        KindView::InvalidIndex(index) => "index "@ + signed_decimal(index as int) + " is invalid for this layout"@,
        KindView::InvalidLayout => "layout is invalid"@,
        KindView::LenOverflow => "tensor len must not exceed isize::MAX"@,
        KindView::Other(text) => text,
        KindView::OutOfBounds(position) => "position "@ + list_text(ints_of_isize(position)) + " out of bounds"@,
        KindView::RankMismatch => "tensor ranks were expected to be equal"@,
        KindView::ShapeMismatch => "tensor shapes were expected to be identical"@,
        KindView::SpecificCountMismatch(c) => "expected a tensor of with "@ + decimal(c as nat) + " components"@,
        KindView::SpecificDimMismatch { expectation, index } => "expected the dim of axis "@ + signed_decimal(index as int)
            + " to be "@ + decimal(expectation as nat),
        KindView::SpecificRankMismatch(r) => "expected a tensor of rank "@ + decimal(r as nat),
        KindView::Undefined(reason) => "operation result is undefined: "@ + reason,
        KindView::Unknown => "unknown error"@,
    }
}

impl ErrorKind {
    /// The message of this kind: what went wrong, with the numbers and text it carries.
    pub fn to_string(&self) -> (r: String)
        ensures
            r@ == kind_text(self@),
    {
        let mut s = String::new();
        match self {
            ErrorKind::Alias => push_text(&mut s, "mutable components may not alias"),
            ErrorKind::BroadcastMismatch => push_text(&mut s, "tensor shapes were expected to be broadcast compatible"),
            ErrorKind::BufferTooSmall { available, required } => {
                push_text(&mut s, "buffer len is ");
                push_decimal(&mut s, *available);
                push_text(&mut s, " but tensor len is ");
                push_decimal(&mut s, *required);
            },
            ErrorKind::CountMismatch => push_text(&mut s, "tensors were expected to have the same number of components"),
            ErrorKind::CountOverflow => push_text(&mut s, "component count must not exceed usize::MAX"),
            ErrorKind::DimMismatch(ix) => {
                push_text(&mut s, "the dims for index ");
                push_signed(&mut s, *ix);
                push_text(&mut s, " were expected to match");
            },
            ErrorKind::DimOverflow => push_text(&mut s, "individual dims may not exceed isize::MAX"),
            ErrorKind::EmptyCollection => push_text(&mut s, "expected a non empty collection"),
            ErrorKind::EmptyTensor => push_text(&mut s, "expected a non empty tensor"),
            ErrorKind::InvalidIndex(index) => {
                push_text(&mut s, "index ");
                push_signed(&mut s, *index);
                push_text(&mut s, " is invalid for this layout");
            },
            ErrorKind::InvalidLayout => push_text(&mut s, "layout is invalid"),
            ErrorKind::LenOverflow => push_text(&mut s, "tensor len must not exceed isize::MAX"),
            ErrorKind::Other(text) => push_text(&mut s, text.as_str()),
            ErrorKind::OutOfBounds(position) => {
                push_text(&mut s, "position ");
                push_isize_list(&mut s, position.as_slice());
                push_text(&mut s, " out of bounds");
            },
            ErrorKind::RankMismatch => push_text(&mut s, "tensor ranks were expected to be equal"),
            ErrorKind::ShapeMismatch => push_text(&mut s, "tensor shapes were expected to be identical"),
            ErrorKind::SpecificCountMismatch(c) => {
                push_text(&mut s, "expected a tensor of with ");
                push_decimal(&mut s, *c);
                push_text(&mut s, " components");
            },
            ErrorKind::SpecificDimMismatch { expectation, index } => {
                push_text(&mut s, "expected the dim of axis ");
                push_signed(&mut s, *index);
                push_text(&mut s, " to be ");
                push_decimal(&mut s, *expectation);
            },
            ErrorKind::SpecificRankMismatch(r) => {
                push_text(&mut s, "expected a tensor of rank ");
                push_decimal(&mut s, *r);
            },
            ErrorKind::Undefined(reason) => {
                push_text(&mut s, "operation result is undefined: ");
                push_text(&mut s, reason);
            },
            ErrorKind::Unknown => push_text(&mut s, "unknown error"),
        }
        s
    }
}

/// The report of an error: its kind's message, the operation, the layout and the second
/// layout, one per line.
pub open spec fn error_text(kind: KindView, op: Seq<char>, layout: Layout, rhs: Option<Layout>) -> Seq<char> {
    "Error:     "@ + kind_text(kind) + "\n"@
        + "Operation: "@ + op + "\n"@
        + "Layout:    "@ + crate::layout::layout_text(layout) + "\n"@
        + "Rhs:       "@ + match rhs {
            Some(r) => crate::layout::layout_text(r),
            None => "None"@,
        } + "\n"@
}

impl Error {
    /// The report of this error: its kind's message, the operation, the layout and the second
    /// layout, one per line.
    pub fn to_string(&self) -> (r: String)
        ensures
            r@ == error_text(self.spec_kind(), self.spec_op(), self.spec_layout(), self.spec_rhs()),
    {
        let mut s = String::new();
        push_text(&mut s, "Error:     ");
        let k = self.kind.to_string();
        push_text(&mut s, k.as_str());
        push_text(&mut s, "\n");
        push_text(&mut s, "Operation: ");
        push_text(&mut s, self.op);
        push_text(&mut s, "\n");
        push_text(&mut s, "Layout:    ");
        self.layout.push_text_to(&mut s);
        push_text(&mut s, "\n");
        push_text(&mut s, "Rhs:       ");
        match &self.rhslayout {
            Some(r) => r.push_text_to(&mut s),
            None => push_text(&mut s, "None"),
        }
        push_text(&mut s, "\n");
        s
    }
}

impl Clone for Error {
    fn clone(&self) -> (r: Self)
        ensures
            r.spec_kind() == self.spec_kind(),
            r.spec_op() == self.spec_op(),
            r.spec_layout().dims_view() == self.spec_layout().dims_view(),
            r.spec_layout().strides_view() == self.spec_layout().strides_view(),
            r.spec_rhs() is Some == self.spec_rhs() is Some,
    {
        Error {
            layout: self.layout.clone(),
            kind: self.kind.clone(),
            op: self.op,
            rhslayout: match &self.rhslayout {
                Some(l) => Some(l.clone()),
                None => None,
            },
        }
    }
}

impl Default for Error {
    fn default() -> (r: Self)
        ensures
            r.describes(KindView::Unknown, ""@, Seq::empty(), Seq::empty()),
    {
        Error { layout: Layout::scalar(), kind: ErrorKind::Unknown, op: "", rhslayout: None }
    }
}

impl Error {
    /// Creates an error from its parts.
    pub fn new(layout: Layout, kind: ErrorKind, op: &'static str, rhslayout: Option<Layout>) -> (r: Self)
        ensures
            r.spec_kind() == kind@,
            r.spec_op() == op@,
            r.spec_layout() == layout,
            r.spec_rhs() == rhslayout,
    {
        Error { layout, kind, op, rhslayout }
    }

    /// An aliasing error.
    pub fn alias(layout: Layout, op: &'static str) -> (r: Self)
        ensures
            r.spec_kind() == KindView::Alias && r.spec_op() == op@ && r.spec_layout() == layout
                && r.spec_rhs() is None,
    {
        Self::new(layout, ErrorKind::Alias, op, None)
    }

    /// A broadcast mismatch between two layouts.
    pub fn broadcast_mismatch(layout: Layout, op: &'static str, rhslayout: Layout) -> (r: Self)
        ensures
            r.spec_kind() == KindView::BroadcastMismatch && r.spec_op() == op@ && r.spec_layout()
                == layout && r.spec_rhs() == Some(rhslayout),
    {
        Self::new(layout, ErrorKind::BroadcastMismatch, op, Some(rhslayout))
    }

    /// A buffer too small for the layout.
    pub fn buffer_too_small(layout: Layout, available: usize, required: usize, op: &'static str) -> (r: Self)
        ensures
            r.spec_kind() == (KindView::BufferTooSmall { available, required }) && r.spec_op()
                == op@ && r.spec_layout() == layout && r.spec_rhs() is None,
    {
        Self::new(layout, ErrorKind::BufferTooSmall { available, required }, op, None)
    }

    /// A count mismatch between two layouts.
    pub fn count_mismatch(layout: Layout, op: &'static str, rhslayout: Layout) -> (r: Self)
        ensures
            r.spec_kind() == KindView::CountMismatch && r.spec_op() == op@ && r.spec_layout()
                == layout && r.spec_rhs() == Some(rhslayout),
    {
        Self::new(layout, ErrorKind::CountMismatch, op, Some(rhslayout))
    }

    /// A component count overflow.
    pub fn count_overflow(layout: Layout, op: &'static str) -> (r: Self)
        ensures
            r.spec_kind() == KindView::CountOverflow && r.spec_op() == op@ && r.spec_layout()
                == layout && r.spec_rhs() is None,
    {
        Self::new(layout, ErrorKind::CountOverflow, op, None)
    }

    /// A mismatch of the dims at an axis between two layouts.
    pub fn dim_mismatch(layout: Layout, index: isize, op: &'static str, rhslayout: Layout) -> (r: Self)
        ensures
            r.spec_kind() == KindView::DimMismatch(index) && r.spec_op() == op@ && r.spec_layout()
                == layout && r.spec_rhs() == Some(rhslayout),
    {
        Self::new(layout, ErrorKind::DimMismatch(index), op, Some(rhslayout))
    }

    /// A dim overflow.
    pub fn dim_overflow(layout: Layout, op: &'static str) -> (r: Self)
        ensures
            r.spec_kind() == KindView::DimOverflow && r.spec_op() == op@ && r.spec_layout()
                == layout && r.spec_rhs() is None,
    {
        Self::new(layout, ErrorKind::DimOverflow, op, None)
    }

    /// An empty collection of tensors.
    pub fn empty_collection(layout: Layout, op: &'static str) -> (r: Self)
        ensures
            r.spec_kind() == KindView::EmptyCollection && r.spec_op() == op@ && r.spec_layout()
                == layout && r.spec_rhs() is None,
    {
        Self::new(layout, ErrorKind::EmptyCollection, op, None)
    }

    /// An empty tensor.
    pub fn empty_tensor(layout: Layout, op: &'static str) -> (r: Self)
        ensures
            r.spec_kind() == KindView::EmptyTensor && r.spec_op() == op@ && r.spec_layout()
                == layout && r.spec_rhs() is None,
    {
        Self::new(layout, ErrorKind::EmptyTensor, op, None)
    }

    /// An invalid axis index.
    pub fn invalid_index(layout: Layout, index: isize, op: &'static str) -> (r: Self)
        ensures
            r.spec_kind() == KindView::InvalidIndex(index) && r.spec_op() == op@ && r.spec_layout()
                == layout && r.spec_rhs() is None,
    {
        Self::new(layout, ErrorKind::InvalidIndex(index), op, None)
    }

    /// A layout that should have been valid.
    pub fn invalid_layout(layout: Layout, op: &'static str) -> (r: Self)
        ensures
            r.spec_kind() == KindView::InvalidLayout && r.spec_op() == op@ && r.spec_layout()
                == layout && r.spec_rhs() is None,
    {
        Self::new(layout, ErrorKind::InvalidLayout, op, None)
    }

    /// A buffer length overflow.
    pub fn len_overflow(layout: Layout, op: &'static str) -> (r: Self)
        ensures
            r.spec_kind() == KindView::LenOverflow && r.spec_op() == op@ && r.spec_layout()
                == layout && r.spec_rhs() is None,
    {
        Self::new(layout, ErrorKind::LenOverflow, op, None)
    }

    /// Some other error, described by `message`.
    pub fn other(message: String, layout: Layout, op: &'static str, rhslayout: Option<Layout>) -> (r: Self)
        ensures
            r.spec_kind() == KindView::Other(message@) && r.spec_op() == op@ && r.spec_layout()
                == layout && r.spec_rhs() == rhslayout,
    {
        Self::new(layout, ErrorKind::Other(message), op, rhslayout)
    }

    /// A position out of bounds.
    pub fn out_of_bounds(layout: Layout, op: &'static str, position: Position) -> (r: Self)
        ensures
            r.spec_kind() == KindView::OutOfBounds(position@) && r.spec_op() == op@
                && r.spec_layout() == layout && r.spec_rhs() is None,
    {
        Self::new(layout, ErrorKind::OutOfBounds(position), op, None)
    }

    /// A rank mismatch between two layouts.
    pub fn rank_mismatch(layout: Layout, op: &'static str, rhslayout: Layout) -> (r: Self)
        ensures
            r.spec_kind() == KindView::RankMismatch && r.spec_op() == op@ && r.spec_layout()
                == layout && r.spec_rhs() == Some(rhslayout),
    {
        Self::new(layout, ErrorKind::RankMismatch, op, Some(rhslayout))
    }

    /// A shape mismatch between two layouts.
    pub fn shape_mismatch(layout: Layout, op: &'static str, rhslayout: Layout) -> (r: Self)
        ensures
            r.spec_kind() == KindView::ShapeMismatch && r.spec_op() == op@ && r.spec_layout()
                == layout && r.spec_rhs() == Some(rhslayout),
    {
        Self::new(layout, ErrorKind::ShapeMismatch, op, Some(rhslayout))
    }

    /// A count other than the expected one.
    pub fn specific_count_mismatch(layout: Layout, expectation: usize, op: &'static str) -> (r: Self)
        ensures
            r.spec_kind() == KindView::SpecificCountMismatch(expectation) && r.spec_op() == op@
                && r.spec_layout() == layout && r.spec_rhs() is None,
    {
        Self::new(layout, ErrorKind::SpecificCountMismatch(expectation), op, None)
    }

    /// A dim other than the expected one at an axis.
    pub fn specific_dim_mismatch(layout: Layout, expectation: usize, index: isize, op: &'static str) -> (r: Self)
        ensures
            r.spec_kind() == (KindView::SpecificDimMismatch { expectation, index })
                && r.spec_op() == op@ && r.spec_layout() == layout && r.spec_rhs() is None,
    {
        Self::new(layout, ErrorKind::SpecificDimMismatch { expectation, index }, op, None)
    }

    /// A rank other than the expected one.
    pub fn specific_rank_mismatch(layout: Layout, expectation: usize, op: &'static str) -> (r: Self)
        ensures
            r.spec_kind() == KindView::SpecificRankMismatch(expectation) && r.spec_op() == op@
                && r.spec_layout() == layout && r.spec_rhs() is None,
    {
        Self::new(layout, ErrorKind::SpecificRankMismatch(expectation), op, None)
    }

    /// An operation undefined for its input, for the given reason.
    pub fn undefined(layout: Layout, reason: &'static str, op: &'static str) -> (r: Self)
        ensures
            r.spec_kind() == KindView::Undefined(reason@) && r.spec_op() == op@ && r.spec_layout()
                == layout && r.spec_rhs() is None,
    {
        Self::new(layout, ErrorKind::Undefined(reason), op, None)
    }

    /// An unknown error.
    pub fn unknown(layout: Layout, op: &'static str) -> (r: Self)
        ensures
            r.spec_kind() == KindView::Unknown && r.spec_op() == op@ && r.spec_layout() == layout
                && r.spec_rhs() is None,
    {
        Self::new(layout, ErrorKind::Unknown, op, None)
    }

    /// The kind of the error.
    pub fn get_kind(&self) -> (r: ErrorKind)
        ensures
            r@ == self.spec_kind(),
    {
        self.kind.clone()
    }

    /// The layout the error concerns.
    pub fn get_layout(&self) -> (r: Layout)
        ensures
            r.dims_view() == self.spec_layout().dims_view(),
            r.strides_view() == self.spec_layout().strides_view(),
    {
        self.layout.clone()
    }

    /// The name of the failed operation.
    pub fn get_op(&self) -> (r: &'static str)
        ensures
            r@ == self.spec_op(),
    {
        self.op
    }

    /// The second layout involved, if any.
    pub fn get_rhs_layout(&self) -> (r: Option<Layout>)
        ensures
            r is Some == self.spec_rhs() is Some,
            r matches Some(l) ==> l.dims_view() == self.spec_rhs()->Some_0.dims_view()
                && l.strides_view() == self.spec_rhs()->Some_0.strides_view(),
    {
        match &self.rhslayout {
            Some(l) => Some(l.clone()),
            None => None,
        }
    }

    /// Sets the layout.
    pub fn set_layout(&mut self, layout: Layout)
        ensures
            final(self).spec_layout() == layout,
            final(self).spec_kind() == old(self).spec_kind(),
            final(self).spec_op() == old(self).spec_op(),
            final(self).spec_rhs() == old(self).spec_rhs(),
    {
        self.layout = layout;
    }

    /// Sets the operation name.
    pub fn set_op(&mut self, op: &'static str)
        ensures
            final(self).spec_op() == op@,
            final(self).spec_layout() == old(self).spec_layout(),
            final(self).spec_kind() == old(self).spec_kind(),
            final(self).spec_rhs() == old(self).spec_rhs(),
    {
        self.op = op;
    }

    /// Sets the second layout.
    pub fn set_rhs_layout(&mut self, rhslayout: Option<Layout>)
        ensures
            final(self).spec_rhs() == rhslayout,
            final(self).spec_layout() == old(self).spec_layout(),
            final(self).spec_kind() == old(self).spec_kind(),
            final(self).spec_op() == old(self).spec_op(),
    {
        self.rhslayout = rhslayout;
    }

    /// This error with its layout replaced.
    pub fn with_layout(self, layout: Layout) -> (r: Self)
        ensures
            r.spec_layout() == layout,
            r.spec_kind() == self.spec_kind(),
            r.spec_op() == self.spec_op(),
            r.spec_rhs() == self.spec_rhs(),
    {
        let mut e = self;
        e.set_layout(layout);
        e
    }

    /// This error with its operation name replaced.
    pub fn with_op(self, op: &'static str) -> (r: Self)
        ensures
            r.spec_op() == op@,
            r.spec_layout() == self.spec_layout(),
            r.spec_kind() == self.spec_kind(),
            r.spec_rhs() == self.spec_rhs(),
    {
        let mut e = self;
        e.set_op(op);
        e
    }

    /// This error with its second layout replaced.
    pub fn with_rhs_layout(self, rhslayout: Option<Layout>) -> (r: Self)
        ensures
            r.spec_rhs() == rhslayout,
            r.spec_layout() == self.spec_layout(),
            r.spec_kind() == self.spec_kind(),
            r.spec_op() == self.spec_op(),
    {
        let mut e = self;
        e.set_rhs_layout(rhslayout);
        e
    }
}

// ---------------------------------------------------------------------------------------------
// Checks
// ---------------------------------------------------------------------------------------------

/// Product of the first `k` dims.
pub open spec fn prefix_count(dims: Seq<usize>, k: nat) -> int
    decreases k,
{
    if k == 0 || k > dims.len() {
        1
    } else {
        prefix_count(dims, (k - 1) as nat) * dims[k - 1]
    }
}

/// The components can be counted: every dim fits in `isize` and the product of all dims, the
/// count, fits in `usize`.
pub open spec fn count_ok(dims: Seq<usize>) -> bool {
    &&& position::dims_fit_isize(dims)
    &&& position::count_of(dims) <= usize::MAX
}

/// The kind of error reported when the components cannot be counted: `DimOverflow` when a
/// dim exceeds `isize::MAX`, `CountOverflow` otherwise.
pub open spec fn count_fault_kind(dims: Seq<usize>) -> KindView {
    if !position::dims_fit_isize(dims) {
        KindView::DimOverflow
    } else {
        KindView::CountOverflow
    }
}

/// The greater of two lengths.
pub open spec fn max_len(a: nat, b: nat) -> usize {
    if a > b {
        a as usize
    } else {
        b as usize
    }
}

/// Sum of `(dim - 1) * |stride|` over the first `k` axes.
pub open spec fn prefix_span(dims: Seq<usize>, strides: Seq<isize>, k: nat) -> int
    decreases k,
{
    if k == 0 || k > dims.len() {
        0
    } else {
        prefix_span(dims, strides, (k - 1) as nat) + (dims[k - 1] - 1) * abs_int(
            strides[k - 1] as int,
        )
    }
}

/// Axis `i` is where measuring the buffer fails: its dim exceeds `isize::MAX`, or the buffer
/// reached by the axes up to it exceeds `isize::MAX`.
pub open spec fn len_fault(dims: Seq<usize>, strides: Seq<isize>, i: int) -> bool {
    dims[i] > isize::MAX || 1 + prefix_span(dims, strides, (i + 1) as nat) > isize::MAX
}

/// The kind of error reported for the first length fault, at axis `i`.
pub open spec fn len_fault_kind(dims: Seq<usize>, i: int) -> KindView {
    if dims[i] > isize::MAX {
        KindView::DimOverflow
    } else {
        KindView::LenOverflow
    }
}

/// The buffer of a layout fits in `isize`: the ranks agree, every dim fits in `isize`, and,
/// unless a dim is 0, the buffer reached by every prefix of the axes fits in `isize`.
pub open spec fn len_ok(dims: Seq<usize>, strides: Seq<isize>) -> bool {
    &&& dims.len() == strides.len()
    &&& forall|i: int| 0 <= i < dims.len() ==> #[trigger] dims[i] <= isize::MAX
    &&& !dims.contains(0) ==> forall|i: int|
        0 <= i < dims.len() ==> !#[trigger] len_fault(dims, strides, i)
}

/// A layout is valid: its component count and buffer length fit.
pub open spec fn layout_ok(dims: Seq<usize>, strides: Seq<isize>) -> bool {
    count_ok(dims) && len_ok(dims, strides)
}

/// Two distinct places of a full iteration over the dims sit at the same buffer offset under
/// the strides: two positions that are not the same position name one component.
pub open spec fn aliases(dims: Seq<usize>, strides: Seq<isize>) -> bool {
    !position::offsets_injective(dims, strides)
}

/// The first counting fault of `dims`, as the error to report.
proof fn lemma_prefix_count_nonneg(dims: Seq<usize>, k: nat)
    ensures
        prefix_count(dims, k) >= 0,
    decreases k,
{
    if k > 0 && k <= dims.len() {
        lemma_prefix_count_nonneg(dims, (k - 1) as nat);
        let a = prefix_count(dims, (k - 1) as nat);
        let b = dims[k - 1] as int;
        assert(a * b >= 0) by (nonlinear_arith)
            requires
                a >= 0,
                b >= 0,
        ;
    }
}

/// The product of all dims is the same taken from the front or from the back.
pub proof fn lemma_prefix_suffix_count(dims: Seq<usize>, j: nat)
    requires
        j <= dims.len(),
    ensures
        prefix_count(dims, j) * crate::position::suffix_count(dims, (dims.len() - j) as nat)
            == crate::position::count_of(dims),
    decreases j,
{
    if j > 0 {
        lemma_prefix_suffix_count(dims, (j - 1) as nat);
        let a = prefix_count(dims, (j - 1) as nat);
        let d = dims[j - 1] as int;
        let s = crate::position::suffix_count(dims, (dims.len() - j) as nat);
        assert(crate::position::suffix_count(dims, (dims.len() - j + 1) as nat) == d * s);
        assert(a * (d * s) == (a * d) * s) by (nonlinear_arith);
    }
}

/// A valid layout's count fits in `usize`, its dims in `isize`, and its buffer length in
/// `isize`.
pub proof fn lemma_layout_ok_bounds(dims: Seq<usize>, strides: Seq<isize>)
    requires
        layout_ok(dims, strides),
    ensures
        crate::position::count_of(dims) <= usize::MAX,
        crate::position::dims_fit_isize(dims),
        crate::position::buffer_len_of(dims, strides) <= isize::MAX,
        dims.len() == strides.len(),
{
    lemma_prefix_suffix_span(dims, strides, dims.len());
    if !dims.contains(0) && dims.len() > 0 {
        assert(!len_fault(dims, strides, dims.len() - 1));
    }
}

/// Checks that every coordinate of `position` lies within the matching dim; errors with
/// `SpecificRankMismatch` if the ranks differ and `OutOfBounds` naming the position otherwise.
pub fn check_bounds(dims: &[usize], position: &[isize]) -> (r: Result<()>)
    ensures
        r is Ok <==> position::position_in_bounds(dims@, position@),
        dims@.len() != position@.len() ==> (r matches Err(e) && e.describes(
            KindView::SpecificRankMismatch(position@.len() as usize),
            "check"@,
            dims@,
            Seq::empty(),
        )),
        dims@.len() == position@.len() ==> (r matches Err(e) ==> e.describes(
            KindView::OutOfBounds(position@),
            "check"@,
            dims@,
            Seq::empty(),
        )),
{
    let rank = position.len();
    if dims.len() != rank {
        return Err(Error::specific_rank_mismatch(diagnostic_shape(dims), rank, "check"));
    }
    let mut ix: usize = 0;
    while ix < rank
        invariant
            ix <= rank == dims@.len() == position@.len(),
            forall|j: int| 0 <= j < ix ==> #[trigger] coord_in_bounds(dims@[j] as int, position@[j] as int),
        decreases rank - ix,
    {
        if position::unsign_position(dims[ix], position[ix]).is_none() {
            let p = Position::try_from_coordinates(position).unwrap();
            return Err(Error::out_of_bounds(diagnostic_shape(dims), "check", p));
        }
        ix = ix + 1;
    }
    Ok(())
}

/// Checks that the dims are broadcast compatible: aligned from the last axis, each pair of
/// dims is equal or one of them is 1 (missing axes count as 1).
pub fn check_broadcast(adims: &[usize], bdims: &[usize]) -> (r: Result<()>)
    ensures
        r is Ok <==> broadcast_compatible(adims@, bdims@),
        r matches Err(e) ==> e.describes_pair(
            KindView::BroadcastMismatch,
            "check"@,
            adims@,
            Seq::empty(),
            bdims@,
            Seq::empty(),
        ),
{
    let (al, bl) = (adims.len(), bdims.len());
    let rank = if al > bl { al } else { bl };
    let mut k: usize = 0;
    while k < rank
        invariant
            k <= rank,
            rank == if al > bl { al } else { bl },
            al == adims@.len(),
            bl == bdims@.len(),
            forall|j: int| 0 <= j < k ==> #[trigger] broadcast_axis_ok(adims@, bdims@, j),
        decreases rank - k,
    {
        let a: usize = if k < al { adims[al - 1 - k] } else { 1 };
        let b: usize = if k < bl { bdims[bl - 1 - k] } else { 1 };
        if a != b && a != 1 && b != 1 {
            assert(!broadcast_axis_ok(adims@, bdims@, k as int));
            return Err(
                Error::broadcast_mismatch(diagnostic_shape(adims), "check", diagnostic_shape(bdims)),
            );
        }
        k = k + 1;
    }
    Ok(())
}

/// Dim of `dims` at the `k`-th axis counted from the last, or 1 past the first axis.
pub open spec fn dim_from_end(dims: Seq<usize>, k: int) -> int {
    if k < dims.len() {
        dims[dims.len() - 1 - k] as int
    } else {
        1
    }
}

/// Aligned from the last axis, the `k`-th pair of dims is compatible.
pub open spec fn broadcast_axis_ok(a: Seq<usize>, b: Seq<usize>, k: int) -> bool {
    let x = dim_from_end(a, k);
    let y = dim_from_end(b, k);
    x == y || x == 1 || y == 1
}

/// Two shapes are broadcast compatible.
pub open spec fn broadcast_compatible(a: Seq<usize>, b: Seq<usize>) -> bool {
    forall|k: int|
        0 <= k < (if a.len() > b.len() { a.len() } else { b.len() }) ==> #[trigger] broadcast_axis_ok(a, b, k)
}

/// Checks that no dim exceeds `isize::MAX`; errors with `DimOverflow`.
pub fn check_dims(dims: &[usize]) -> (r: Result<()>)
    ensures
        r is Ok <==> position::dims_fit_isize(dims@),
        r matches Err(e) ==> e.describes(KindView::DimOverflow, "check"@, dims@, Seq::empty()),
{
    let mut i: usize = 0;
    while i < dims.len()
        invariant
            i <= dims@.len(),
            forall|j: int| 0 <= j < i ==> #[trigger] dims@[j] <= isize::MAX,
        decreases dims@.len() - i,
    {
        if dims[i] > isize::MAX as usize {
            return Err(Error::dim_overflow(diagnostic_shape(dims), "check"));
        }
        i = i + 1;
    }
    Ok(())
}

/// Along dims of at least 1, a longer prefix has at least as large a product.
proof fn lemma_prefix_count_mono(dims: Seq<usize>, k: nat, m: nat)
    requires
        forall|i: int| 0 <= i < dims.len() ==> #[trigger] dims[i] >= 1,
        k <= m <= dims.len(),
    ensures
        1 <= prefix_count(dims, k) <= prefix_count(dims, m),
    decreases m,
{
    if m > k {
        lemma_prefix_count_mono(dims, k, (m - 1) as nat);
        let a = prefix_count(dims, (m - 1) as nat);
        let d = dims[m - 1] as int;
        assert(a <= a * d) by (nonlinear_arith)
            requires
                a >= 1,
                d >= 1,
        ;
    } else if k > 0 {
        lemma_prefix_count_mono(dims, (k - 1) as nat, (k - 1) as nat);
        let a = prefix_count(dims, (k - 1) as nat);
        let d = dims[k - 1] as int;
        assert(1 <= a * d) by (nonlinear_arith)
            requires
                a >= 1,
                d >= 1,
        ;
    }
}

/// Counts the components: errors with `DimOverflow` if a dim exceeds `isize::MAX`, else with
/// `CountOverflow` if the product of the dims exceeds `usize::MAX`. A tensor with a zero dim
/// has no components, whatever the other dims.
pub fn checked_count(dims: &[usize]) -> (r: Result<usize>)
    ensures
        r is Ok <==> count_ok(dims@),
        r matches Ok(c) ==> c == crate::position::count_of(dims@),
        r matches Err(e) ==> e.describes(count_fault_kind(dims@), "count"@, dims@, Seq::empty()),
{
    match check_dims(dims) {
        Err(_) => {
            return Err(Error::dim_overflow(diagnostic_shape(dims), "count"));
        },
        Ok(()) => {},
    }
    if position::dims_contain_zero(dims) {
        proof {
            let z = choose|z: int| 0 <= z < dims@.len() && dims@[z] == 0;
            position::lemma_suffix_count_zero(dims@, z, dims@.len());
        }
        return Ok(0);
    }
    proof {
        assert forall|i: int| 0 <= i < dims@.len() implies #[trigger] dims@[i] >= 1 by {
            if dims@[i] == 0 {
                assert(dims@.contains(0));
            }
        }
        lemma_prefix_suffix_count(dims@, dims@.len());
    }
    let mut acc: usize = 1;
    let mut i: usize = 0;
    while i < dims.len()
        invariant
            i <= dims@.len(),
            forall|j: int| 0 <= j < dims@.len() ==> #[trigger] dims@[j] >= 1,
            position::dims_fit_isize(dims@),
            prefix_count(dims@, dims@.len()) == position::count_of(dims@),
            acc == prefix_count(dims@, i as nat),
        decreases dims@.len() - i,
    {
        let dim = dims[i];
        proof {
            assert(prefix_count(dims@, (i + 1) as nat) == acc * dim);
        }
        if acc > usize::MAX / dim {
            proof {
                assert(acc * dim > usize::MAX) by (nonlinear_arith)
                    requires
                        dim > 0,
                        acc > usize::MAX / dim,
                ;
                lemma_prefix_count_mono(dims@, (i + 1) as nat, dims@.len());
            }
            return Err(Error::count_overflow(diagnostic_shape(dims), "count"));
        }
        proof {
            assert(acc * dim <= usize::MAX) by (nonlinear_arith)
                requires
                    dim > 0,
                    acc <= usize::MAX / dim,
            ;
        }
        acc = acc * dim;
        i = i + 1;
    }
    Ok(acc)
}

/// The rank of a layout; errors with `SpecificRankMismatch` (the larger length) when the dims
/// and strides have different lengths.
pub fn checked_rank(dims: &[usize], strides: &[isize]) -> (r: Result<usize>)
    ensures
        r is Ok <==> dims@.len() == strides@.len(),
        r matches Ok(n) ==> n == dims@.len(),
        r matches Err(e) ==> e.describes(
            KindView::SpecificRankMismatch(
                if dims@.len() > strides@.len() {
                    dims@.len() as usize
                } else {
                    strides@.len() as usize
                },
            ),
            "rank"@,
            dims@,
            strides@,
        ),
{
    let (r, s) = (dims.len(), strides.len());
    if r != s {
        let m = if r > s { r } else { s };
        return Err(Error::specific_rank_mismatch(diagnostic_layout(dims, strides), m, "rank"));
    }
    Ok(r)
}

/// The buffer length of a layout, checking ranks, dims and length: errors with
/// `SpecificRankMismatch`, or with `DimOverflow` or `LenOverflow` at the first axis, in axis
/// order, where the dim or the buffer reached so far exceeds `isize::MAX`. An empty tensor
/// has length 0.
pub fn checked_len(dims: &[usize], strides: &[isize]) -> (r: Result<usize>)
    ensures
        r is Ok <==> len_ok(dims@, strides@),
        r matches Ok(n) ==> n == crate::position::buffer_len_of(dims@, strides@),
        dims@.len() != strides@.len() ==> (r matches Err(e) && e.describes(
            KindView::SpecificRankMismatch(
                if dims@.len() > strides@.len() {
                    dims@.len() as usize
                } else {
                    strides@.len() as usize
                },
            ),
            "len"@,
            dims@,
            strides@,
        )),
        dims@.len() == strides@.len() && dims@.contains(0) ==> (r matches Err(e) ==> e.describes(
            KindView::DimOverflow,
            "len"@,
            dims@,
            strides@,
        )),
        dims@.len() == strides@.len() && !dims@.contains(0) ==> (r matches Err(e) ==> exists|i: int|
            0 <= i < dims@.len() && len_fault(dims@, strides@, i) && (forall|j: int|
                0 <= j < i ==> !#[trigger] len_fault(dims@, strides@, j)) && e.describes(
                len_fault_kind(dims@, i),
                "len"@,
                dims@,
                strides@,
            )),
{
    let rank = match checked_rank(dims, strides) {
        Ok(r) => r,
        Err(e) => {
            return Err(e.with_op("len"));
        },
    };
    if position::dims_contain_zero(dims) {
        return match check_dims(dims) {
            Ok(()) => Ok(0),
            Err(e) => Err(e.with_layout(diagnostic_layout(dims, strides)).with_op("len")),
        };
    }
    let mut acc: usize = 1;
    let mut ix: usize = 0;
    while ix < rank
        invariant
            ix <= rank == dims@.len() == strides@.len(),
            !dims@.contains(0),
            acc == 1 + prefix_span(dims@, strides@, ix as nat),
            forall|j: int| 0 <= j < ix ==> !#[trigger] len_fault(dims@, strides@, j),
        decreases rank - ix,
    {
        let dim = dims[ix];
        if dim > isize::MAX as usize {
            assert(len_fault(dims@, strides@, ix as int));
            return Err(Error::dim_overflow(diagnostic_layout(dims, strides), "len"));
        }
        assert(dim != 0) by {
            if dim == 0 {
                assert(dims@.contains(0));
            }
        }
        let mag = stride_magnitude(strides[ix]);
        let dm = dim - 1;
        if dm != 0 && mag > (isize::MAX as usize) / dm {
            proof {
                assert(dm * mag > isize::MAX) by (nonlinear_arith)
                    requires
                        dm > 0,
                        mag > (isize::MAX as usize) / dm,
                ;
                assert(dm * mag >= 0);
                assert(len_fault(dims@, strides@, ix as int));
            }
            return Err(Error::len_overflow(diagnostic_layout(dims, strides), "len"));
        }
        proof {
            if dm != 0 {
                assert(dm * mag <= isize::MAX) by (nonlinear_arith)
                    requires
                        dm > 0,
                        mag <= (isize::MAX as usize) / dm,
                ;
            } else {
                assert(dm * mag == 0);
            }
            assert(dm * mag >= 0) by (nonlinear_arith)
                requires
                    dm >= 0,
                    mag >= 0,
            ;
        }
        let term = dm * mag;
        if acc > (isize::MAX as usize) - term {
            assert(len_fault(dims@, strides@, ix as int));
            return Err(Error::len_overflow(diagnostic_layout(dims, strides), "len"));
        }
        acc = acc + term;
        ix = ix + 1;
    }
    proof {
        lemma_prefix_suffix_span(dims@, strides@, dims@.len());
        assert forall|i: int| 0 <= i < dims@.len() implies #[trigger] dims@[i] <= isize::MAX by {
            assert(!len_fault(dims@, strides@, i));
        }
    }
    Ok(acc)
}

/// The span of all axes is the same summed from the front or from the back.
pub proof fn lemma_prefix_suffix_span(dims: Seq<usize>, strides: Seq<isize>, j: nat)
    requires
        j <= dims.len(),
    ensures
        prefix_span(dims, strides, j) + crate::position::suffix_span(
            dims,
            strides,
            (dims.len() - j) as nat,
        ) == crate::position::suffix_span(dims, strides, dims.len()),
    decreases j,
{
    if j > 0 {
        lemma_prefix_suffix_span(dims, strides, (j - 1) as nat);
    }
}

/// Checks that a layout is valid: the ranks agree, the component count fits in `usize`, no
/// dim exceeds `isize::MAX`, and the buffer length fits in `isize`. Errors are those of
/// `checked_count`, then `checked_len`, naming this layout and the operation "check".
pub fn check_layout(dims: &[usize], strides: &[isize]) -> (r: Result<()>)
    ensures
        r is Ok <==> layout_ok(dims@, strides@),
        r matches Err(e) ==> e.spec_op() == "check"@ && e.spec_layout().dims_view() == dims@
            && e.spec_layout().strides_view() == strides@,
        !count_ok(dims@) ==> (r matches Err(e) && e.spec_kind() == count_fault_kind(dims@)),
        count_ok(dims@) && dims@.len() != strides@.len() ==> (r matches Err(e) && e.spec_kind()
            == KindView::SpecificRankMismatch(max_len(dims@.len(), strides@.len()))),
        count_ok(dims@) && dims@.len() == strides@.len() && !dims@.contains(0) ==> (r matches Err(e)
            ==> exists|i: int|
            0 <= i < dims@.len() && len_fault(dims@, strides@, i) && (forall|j: int|
                0 <= j < i ==> !#[trigger] len_fault(dims@, strides@, j)) && e.spec_kind()
                == len_fault_kind(dims@, i)),
{
    match checked_count(dims) {
        Err(e) => {
            return Err(e.with_layout(diagnostic_layout(dims, strides)).with_op("check"));
        },
        Ok(_) => {},
    }
    match checked_len(dims, strides) {
        Err(e) => Err(e.with_layout(diagnostic_layout(dims, strides)).with_op("check")),
        Ok(_) => Ok(()),
    }
}

/// A layout built from copies of the dims and strides, to describe an error.
pub fn diagnostic_layout(dims: &[usize], strides: &[isize]) -> (r: Layout)
    ensures
        r.dims_view() == dims@,
        r.strides_view() == strides@,
{
    Layout::from_inner(copy_dims(dims), copy_strides(strides))
}

/// A layout with the given dims and no strides, to describe an error about dims.
pub fn diagnostic_shape(dims: &[usize]) -> (r: Layout)
    ensures
        r.dims_view() == dims@,
        r.strides_view() == Seq::<isize>::empty(),
{
    Layout::from_inner(copy_dims(dims), Vec::new())
}

/// Checks that two shapes are identical; errors with `ShapeMismatch`.
pub fn check_shape_match(adims: &[usize], bdims: &[usize]) -> (r: Result<()>)
    ensures
        r is Ok <==> adims@ == bdims@,
        r matches Err(e) ==> e.describes_pair(
            KindView::ShapeMismatch,
            "check"@,
            adims@,
            Seq::empty(),
            bdims@,
            Seq::empty(),
        ),
{
    if !same_dims(adims, bdims) {
        return Err(
            Error::shape_mismatch(diagnostic_shape(adims), "check", diagnostic_shape(bdims)),
        );
    }
    Ok(())
}

proof fn lemma_prefix_span_nonneg(dims: Seq<usize>, strides: Seq<isize>, k: nat)
    requires
        forall|i: int| 0 <= i < dims.len() ==> #[trigger] dims[i] >= 1,
    ensures
        prefix_span(dims, strides, k) >= 0,
    decreases k,
{
    if k > 0 && k <= dims.len() {
        lemma_prefix_span_nonneg(dims, strides, (k - 1) as nat);
        let m = dims[k - 1] - 1;
        let a = abs_int(strides[k - 1] as int);
        assert(m * a >= 0) by (nonlinear_arith)
            requires
                m >= 0,
                a >= 0,
        ;
    }
}

/// Checks that a layout is valid (see `check_layout`) and that it does not alias: no two
/// distinct positions reach the same buffer offset. Walks every position once, recording the
/// offsets reached so far; errors with `Alias` at the first offset reached twice.
pub fn check_layout_mut(dims: &[usize], strides: &[isize]) -> (r: Result<()>)
    ensures
        r is Ok <==> layout_ok(dims@, strides@) && !aliases(dims@, strides@),
        r matches Err(e) ==> e.spec_op() == "check"@ && e.spec_layout().dims_view() == dims@
            && e.spec_layout().strides_view() == strides@,
        !count_ok(dims@) ==> (r matches Err(e) && e.spec_kind() == count_fault_kind(dims@)),
        count_ok(dims@) && dims@.len() != strides@.len() ==> (r matches Err(e) && e.spec_kind()
            == KindView::SpecificRankMismatch(max_len(dims@.len(), strides@.len()))),
        layout_ok(dims@, strides@) && aliases(dims@, strides@) ==> (r matches Err(e)
            && e.spec_kind() == KindView::Alias),
{
    broadcast use vstd::std_specs::hash::group_hash_axioms;

    match check_layout(dims, strides) {
        Err(e) => {
            return Err(e);
        },
        Ok(()) => {},
    }
    proof {
        lemma_layout_ok_bounds(dims@, strides@);
    }
    let ghost d = dims@;
    let ghost s = strides@;
    let count = position::component_count(dims);
    if count == 0 {
        return Ok(());
    }
    let mut seen: HashSet<usize> = HashSet::new();
    let mut p = Position::new(dims.len());
    proof {
        position::lemma_zeros_in_bounds(d, p@);
    }
    let mut k: usize = 0;
    while k < count
        invariant
            d == dims@,
            s == strides@,
            d.len() == s.len(),
            layout_ok(d, s),
            position::dims_fit_isize(d),
            count == position::count_of(d),
            position::buffer_len_of(d, s) <= isize::MAX,
            k <= count,
            position::position_in_bounds(d, p@),
            k < count ==> position::linear_index(d, p@) == k,
            forall|j: int| 0 <= j < k ==> seen@.contains(
                #[trigger] position::flat_offset(d, s, j) as usize,
            ),
            forall|o: usize| #[trigger] seen@.contains(o) ==> exists|j: int|
                0 <= j < k && position::flat_offset(d, s, j) == o,
            forall|i: int, j: int|
                0 <= i < k && 0 <= j < k && i != j ==> #[trigger] position::flat_offset(d, s, i)
                    != #[trigger] position::flat_offset(d, s, j),
        decreases count - k,
    {
        proof {
            position::lemma_offset_below_len(d, p@, s);
            position::lemma_flat_offset(d, s, p@);
            assert forall|j: int| 0 <= j < k implies 0 <= #[trigger] position::flat_offset(d, s, j)
                < position::buffer_len_of(d, s) by {
                position::lemma_flat_offset_below_len(d, s, j);
            }
        }
        let o = position::compute_offset(dims, p.as_slice(), strides);
        let fresh = seen.insert(o);
        if !fresh {
            proof {
                let j = choose|j: int| 0 <= j < k && position::flat_offset(d, s, j) == o;
                assert(position::flat_offset(d, s, j) == position::flat_offset(d, s, k as int));
                assert(!position::offsets_injective(d, s));
            }
            return Err(Error::alias(diagnostic_layout(dims, strides), "check"));
        }
        proof {
            assert forall|j: int| 0 <= j < k + 1 implies seen@.contains(
                #[trigger] position::flat_offset(d, s, j) as usize,
            ) by {
                if j < k {
                }
            }
            assert forall|x: usize| #[trigger] seen@.contains(x) implies exists|j: int|
                0 <= j < k + 1 && position::flat_offset(d, s, j) == x by {
                if x != o {
                    let j = choose|j: int| 0 <= j < k && position::flat_offset(d, s, j) == x;
                    assert(0 <= j < k + 1 && position::flat_offset(d, s, j) == x);
                } else {
                    assert(position::flat_offset(d, s, k as int) == x);
                }
            }
            assert forall|i: int, j: int|
                0 <= i < k + 1 && 0 <= j < k + 1 && i != j implies #[trigger] position::flat_offset(d, s, i)
                    != #[trigger] position::flat_offset(d, s, j) by {
                if i == k {
                    assert(seen@.contains(position::flat_offset(d, s, j) as usize));
                } else if j == k {
                    assert(seen@.contains(position::flat_offset(d, s, i) as usize));
                }
            }
        }
        if k + 1 < count {
            let c = p.increment(dims);
            proof {
                position::lemma_suffix_value_bounds(d, p@, d.len());
                position::lemma_no_wrap_up(position::linear_index(d, p@), k as int, count as int, c as int, 1);
            }
        }
        k = k + 1;
    }
    Ok(())
}


/// Along dims without a zero whose row-major buffer fits, the row-major strides of the last
/// `m` axes are exact, and those axes span one less than their count.
proof fn lemma_row_major_spans(dims: Seq<usize>, m: nat)
    requires
        forall|i: int| 0 <= i < dims.len() ==> #[trigger] dims[i] >= 1,
        m <= dims.len(),
        position::suffix_span(dims, row_major_strides(dims), dims.len()) < isize::MAX,
    ensures
        position::suffix_count(dims, m) <= isize::MAX,
        position::suffix_span(dims, row_major_strides(dims), m) == position::suffix_count(dims, m) - 1,
    decreases m,
{
    let st = row_major_strides(dims);
    if m > 0 {
        lemma_row_major_spans(dims, (m - 1) as nat);
        let i = dims.len() - m;
        let a = position::suffix_count(dims, (m - 1) as nat);
        let d = dims[i] as int;
        position::lemma_suffix_count_pos(dims, (m - 1) as nat);
        assert(st[i] as int == a);
        assert(abs_int(st[i] as int) == a);
        assert((d - 1) * a + (a - 1) == d * a - 1) by (nonlinear_arith);
        position::lemma_suffix_span_mono(dims, st, m, dims.len());
    }
}

/// A valid row-major layout never aliases: the place of each position in a full iteration is
/// its offset, so distinct places sit at distinct offsets.
pub proof fn law_row_major_never_aliases(dims: Seq<usize>)
    requires
        layout_ok(dims, row_major_strides(dims)),
    ensures
        !aliases(dims, row_major_strides(dims)),
{
    let st = row_major_strides(dims);
    let n = dims.len();
    lemma_layout_ok_bounds(dims, st);
    if !dims.contains(0) {
        assert forall|i: int| 0 <= i < n implies #[trigger] dims[i] >= 1 by {
            if dims[i] == 0 {
                assert(dims.contains(0));
            }
        }
        assert forall|j: int| 0 <= j < n implies #[trigger] st[n - 1 - j] == position::suffix_count(dims, j as nat) by {
            lemma_row_major_spans(dims, j as nat);
            position::lemma_suffix_count_pos(dims, j as nat);
            assert((n - 1 - (n - 1 - j)) as nat == j as nat);
            assert(st[n - 1 - j] == position::suffix_count(dims, j as nat) as isize);
        }
        assert forall|a: int, b: int|
            0 <= a < position::count_of(dims) && 0 <= b < position::count_of(dims) && a != b
                implies #[trigger] position::flat_offset(dims, st, a) != #[trigger] position::flat_offset(dims, st, b) by {
            position::lemma_flat_offset_row_major(dims, st, a);
            position::lemma_flat_offset_row_major(dims, st, b);
        }
    } else {
        let z = choose|z: int| 0 <= z < n && dims[z] == 0;
        position::lemma_suffix_count_zero(dims, z, n);
    }
}

} // verus!
