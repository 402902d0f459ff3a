//! Tensor types: a shape and an element type.

use crate::text;
use crate::text::{push, push_decimal, push_text};
use vstd::prelude::*;
use vstd::std_specs::cmp::PartialEqSpec;

verus! {

/// The views of the items of a sequence.
pub open spec fn views<T: View>(s: Seq<T>) -> Seq<T::V> {
    Seq::new(s.len(), |i: int| s[i]@)
}

/// Whether two slices hold equal items.
pub fn same_items<T: PartialEq>(a: &[T], b: &[T]) -> (r: bool)
    requires
        T::obeys_eq_spec(),
    ensures
        r == (a@.len() == b@.len() && forall|i: int|
            0 <= i < a@.len() ==> (#[trigger] a@[i]).eq_spec(&b@[i])),
{
    if a.len() != b.len() {
        return false;
    }
    let mut i: usize = 0;
    while i < a.len()
        invariant
            T::obeys_eq_spec(),
            a@.len() == b@.len(),
            i <= a@.len(),
            forall|j: int| 0 <= j < i ==> (#[trigger] a@[j]).eq_spec(&b@[j]),
        decreases a@.len() - i,
    {
        if a[i] != b[i] {
            return false;
        }
        i = i + 1;
    }
    true
}

/// Whether two lists of words are the same.
pub fn same_words(a: &[u64], b: &[u64]) -> (r: bool)
    ensures
        r == (a@ == b@),
{
    let r: bool = same_items(a, b);
    assert(r ==> a@ =~= b@);
    r
}

/// A copy of a list of words.
pub fn copy_words(a: &[u64]) -> (r: Vec<u64>)
    ensures
        r@ == a@,
{
    let mut r: Vec<u64> = Vec::new();
    let mut i: usize = 0;
    while i < a.len()
        invariant
            i <= a@.len(),
            r@ == a@.subrange(0, i as int),
        decreases a@.len() - i,
    {
        r.push(a[i]);
        i = i + 1;
        assert(r@ =~= a@.subrange(0, i as int));
    }
    assert(r@ =~= a@);
    r
}

/// The kind of an element type.
#[derive(Debug, Clone, Copy, PartialEq, Eq, Hash, PartialOrd, Ord, Structural)]
pub enum Kind {
    /// Booleans.
    Bool,
    /// Integers.
    Int,
    /// Exact rationals.
    Rat,
    /// Half-precision floats.
    F16,
    /// Brain floats.
    Bf16,
    /// Single-precision floats.
    F32,
    /// Double-precision floats.
    F64,
}

impl Kind {
    /// The byte of the wire format.
    pub open spec fn code(self) -> u8 {
        match self {
            Kind::Bool => 0,
            Kind::Int => 1,
            Kind::Rat => 2,
            Kind::F16 => 3,
            Kind::Bf16 => 4,
            Kind::F32 => 5,
            Kind::F64 => 6,
        }
    }

    /// The kind of a byte of the wire format.
    pub open spec fn of_code(x: u8) -> Option<Kind> {
        if x == 0 {
            Some(Kind::Bool)
        } else if x == 1 {
            Some(Kind::Int)
        } else if x == 2 {
            Some(Kind::Rat)
        } else if x == 3 {
            Some(Kind::F16)
        } else if x == 4 {
            Some(Kind::Bf16)
        } else if x == 5 {
            Some(Kind::F32)
        } else if x == 6 {
            Some(Kind::F64)
        } else {
            None
        }
    }

    /// The name of the kind.
    pub open spec fn label(self) -> Seq<char> {
        match self {
            Kind::Bool => "Bool"@,
            Kind::Int => "Int"@,
            Kind::Rat => "Rat"@,
            Kind::F16 => "F16"@,
            Kind::Bf16 => "Bf16"@,
            Kind::F32 => "F32"@,
            Kind::F64 => "F64"@,
        }
    }

    /// The byte of the wire format.
    pub fn to_u8(self) -> (r: u8)
        ensures
            r == self.code(),
            Kind::of_code(r) == Some(self),
    {
        match self {
            Kind::Bool => 0,
            Kind::Int => 1,
            Kind::Rat => 2,
            Kind::F16 => 3,
            Kind::Bf16 => 4,
            Kind::F32 => 5,
            Kind::F64 => 6,
        }
    }

    /// The kind of a byte of the wire format, if it is one.
    pub fn from_u8(x: u8) -> (r: Option<Kind>)
        ensures
            r == Kind::of_code(x),
            r matches Some(k) ==> k.code() == x,
    {
        match x {
            0 => Some(Kind::Bool),
            1 => Some(Kind::Int),
            2 => Some(Kind::Rat),
            3 => Some(Kind::F16),
            4 => Some(Kind::Bf16),
            5 => Some(Kind::F32),
            6 => Some(Kind::F64),
            _ => None,
        }
    }
}

/// The signedness of an element type.
#[derive(Debug, Clone, Copy, PartialEq, Eq, Hash, PartialOrd, Ord, Structural)]
pub enum Sign {
    /// Values that are not negative.
    NonNeg,
    /// Values of either sign.
    Signed,
}

impl Sign {
    /// The byte of the wire format.
    pub open spec fn code(self) -> u8 {
        match self {
            Sign::NonNeg => 0,
            Sign::Signed => 1,
        }
    }

    /// The signedness of a byte of the wire format.
    pub open spec fn of_code(x: u8) -> Option<Sign> {
        if x == 0 {
            Some(Sign::NonNeg)
        } else if x == 1 {
            Some(Sign::Signed)
        } else {
            None
        }
    }

    /// The byte of the wire format.
    pub fn to_u8(self) -> (r: u8)
        ensures
            r == self.code(),
            Sign::of_code(r) == Some(self),
    {
        match self {
            Sign::NonNeg => 0,
            Sign::Signed => 1,
        }
    }

    /// The signedness of a byte of the wire format, if it is one.
    pub fn from_u8(x: u8) -> (r: Option<Sign>)
        ensures
            r == Sign::of_code(x),
            r matches Some(k) ==> k.code() == x,
    {
        match x {
            0 => Some(Sign::NonNeg),
            1 => Some(Sign::Signed),
            _ => None,
        }
    }
}

/// Whether an element type has values beyond the finite ones.
#[derive(Debug, Clone, Copy, PartialEq, Eq, Hash, PartialOrd, Ord, Structural)]
pub enum Ext {
    /// Finite values only.
    Fin,
    /// The extended carrier.
    Ext,
}

impl Ext {
    /// The byte of the wire format.
    pub open spec fn code(self) -> u8 {
        match self {
            Ext::Fin => 0,
            Ext::Ext => 1,
        }
    }

    /// The extension of a byte of the wire format.
    pub open spec fn of_code(x: u8) -> Option<Ext> {
        if x == 0 {
            Some(Ext::Fin)
        } else if x == 1 {
            Some(Ext::Ext)
        } else {
            None
        }
    }

    /// The byte of the wire format.
    pub fn to_u8(self) -> (r: u8)
        ensures
            r == self.code(),
            Ext::of_code(r) == Some(self),
    {
        match self {
            Ext::Fin => 0,
            Ext::Ext => 1,
        }
    }

    /// The extension of a byte of the wire format, if it is one.
    pub fn from_u8(x: u8) -> (r: Option<Ext>)
        ensures
            r == Ext::of_code(x),
            r matches Some(k) ==> k.code() == x,
    {
        match x {
            0 => Some(Ext::Fin),
            1 => Some(Ext::Ext),
            _ => None,
        }
    }
}

/// An element type as it rides the wire: kind, signedness, extension.
#[derive(Debug, Clone, Copy, PartialEq, Eq, Hash, Structural)]
pub struct Dtype {
    /// The kind.
    pub kind: Kind,
    /// The signedness.
    pub sign: Sign,
    /// The extension.
    pub ext: Ext,
}

impl Dtype {
    /// Exact rationals.
    #[verifier::allow_in_spec]
    pub fn rat() -> Dtype
        returns
            (Dtype { kind: Kind::Rat, sign: Sign::Signed, ext: Ext::Fin }),
    {
        Dtype { kind: Kind::Rat, sign: Sign::Signed, ext: Ext::Fin }
    }

    /// Booleans.
    #[verifier::allow_in_spec]
    pub fn boolean() -> Dtype
        returns
            (Dtype { kind: Kind::Bool, sign: Sign::NonNeg, ext: Ext::Fin }),
    {
        Dtype { kind: Kind::Bool, sign: Sign::NonNeg, ext: Ext::Fin }
    }

    /// Signed finite integers.
    #[verifier::allow_in_spec]
    pub fn integer() -> Dtype
        returns
            (Dtype { kind: Kind::Int, sign: Sign::Signed, ext: Ext::Fin }),
    {
        Dtype { kind: Kind::Int, sign: Sign::Signed, ext: Ext::Fin }
    }

    /// The signedness that a kind has by convention.
    pub open spec fn usual_sign(kind: Kind) -> Sign {
        match kind {
            Kind::Bool => Sign::NonNeg,
            _ => Sign::Signed,
        }
    }

    /// The qualifiers of an element type that departs from the convention.
    pub open spec fn qualifiers(self) -> Seq<char> {
        let unusual = self.sign != Dtype::usual_sign(self.kind);
        let sign = match self.sign {
            Sign::NonNeg => "nonneg"@,
            Sign::Signed => "signed"@,
        };
        if unusual && self.ext == Ext::Ext {
            seq!['('] + sign + seq![','] + "ext"@ + seq![')']
        } else if unusual {
            seq!['('] + sign + seq![')']
        } else if self.ext == Ext::Ext {
            seq!['('] + "ext"@ + seq![')']
        } else {
            Seq::empty()
        }
    }

    /// The text of an element type: the kind, and in brackets what departs from the kind's
    /// convention.
    pub open spec fn rendered(self) -> Seq<char> {
        self.kind.label() + self.qualifiers()
    }

    /// Appends the text of the element type.
    fn push_to(&self, s: &mut String)
        ensures
            final(s)@ == old(s)@ + self.rendered(),
    {
        let ghost start: Seq<char> = s@;
        match self.kind {
            Kind::Bool => push_text(s, "Bool"),
            Kind::Int => push_text(s, "Int"),
            Kind::Rat => push_text(s, "Rat"),
            Kind::F16 => push_text(s, "F16"),
            Kind::Bf16 => push_text(s, "Bf16"),
            Kind::F32 => push_text(s, "F32"),
            Kind::F64 => push_text(s, "F64"),
        }
        let usual: Sign = match self.kind {
            Kind::Bool => Sign::NonNeg,
            _ => Sign::Signed,
        };
        let unusual: bool = self.sign != usual;
        let ext: bool = self.ext == Ext::Ext;
        if unusual || ext {
            push(s, '(');
            if unusual {
                match self.sign {
                    Sign::NonNeg => push_text(s, "nonneg"),
                    Sign::Signed => push_text(s, "signed"),
                }
                if ext {
                    push(s, ',');
                }
            }
            if ext {
                push_text(s, "ext");
            }
            push(s, ')');
        }
        assert(s@ =~= start + self.rendered());
    }

    /// The text of the element type.
    pub fn text(&self) -> (r: String)
        ensures
            r@ == self.rendered(),
    {
        let mut s: String = String::new();
        self.push_to(&mut s);
        assert(s@ =~= self.rendered());
        s
    }
}

/// A tensor type, as the contracts speak of it.
#[verifier::ext_equal]
pub struct TypeModel {
    /// The element type.
    pub dtype: Dtype,
    /// The extents.
    pub shape: Seq<u64>,
}

/// A tensor type: an element type and the extents, none for a scalar.
#[derive(Debug, Hash)]
pub struct TensorType {
    /// The element type.
    pub dtype: Dtype,
    /// The extents; entries are in row-major order.
    pub shape: Vec<u64>,
}

impl View for TensorType {
    type V = TypeModel;

    open spec fn view(&self) -> TypeModel {
        TypeModel { dtype: self.dtype, shape: self.shape@ }
    }
}

impl Clone for TensorType {
    fn clone(&self) -> (r: Self)
        ensures
            r@ == self@,
    {
        TensorType { dtype: self.dtype, shape: copy_words(self.shape.as_slice()) }
    }
}

impl PartialEq for TensorType {
    fn eq(&self, other: &TensorType) -> (r: bool) {
        self.dtype == other.dtype && same_words(self.shape.as_slice(), other.shape.as_slice())
    }
}

impl vstd::std_specs::cmp::PartialEqSpecImpl for TensorType {
    open spec fn obeys_eq_spec() -> bool {
        true
    }

    open spec fn eq_spec(&self, other: &TensorType) -> bool {
        self@ == other@
    }
}

impl Eq for TensorType {

}

/// The product of the extents.
pub open spec fn extent_product(shape: Seq<u64>) -> nat
    decreases shape.len(),
{
    if shape.len() == 0 {
        1
    } else {
        extent_product(shape.drop_last()) * shape.last() as nat
    }
}

/// The number of entries of a shape, as a word: the product of the extents, wrapped.
pub open spec fn entries(shape: Seq<u64>) -> u64 {
    (extent_product(shape) % 0x1_0000_0000_0000_0000) as u64
}

/// The number of entries of a shape, as a word.
pub fn count_entries(shape: &[u64]) -> (r: u64)
    ensures
        r == entries(shape@),
{
    let mut r: u64 = 1;
    let mut i: usize = 0;
    assert(shape@.subrange(0, 0).len() == 0);
    while i < shape.len()
        invariant
            i <= shape@.len(),
            r == entries(shape@.subrange(0, i as int)),
        decreases shape@.len() - i,
    {
        let ghost had: Seq<u64> = shape@.subrange(0, i as int);
        let ghost next: Seq<u64> = shape@.subrange(0, i + 1);
        proof {
            assert(next.drop_last() =~= had);
            assert(next.last() == shape@[i as int]);
            vstd::arithmetic::div_mod::lemma_mul_mod_noop_left(
                extent_product(had) as int,
                shape@[i as int] as int,
                0x1_0000_0000_0000_0000,
            );
        }
        r = r.wrapping_mul(shape[i]);
        i = i + 1;
    }
    assert(shape@.subrange(0, i as int) =~= shape@);
    r
}

/// Extents separated by commas.
pub open spec fn listed(shape: Seq<u64>) -> Seq<char>
    decreases shape.len(),
{
    if shape.len() == 0 {
        Seq::empty()
    } else if shape.len() == 1 {
        text::decimal(shape[0] as int)
    } else {
        listed(shape.drop_last()) + seq![','] + text::decimal(shape.last() as int)
    }
}

/// The extents are listed in order, with a comma between any two neighbours: a list that
/// falls into two is the first part, a comma, and the second part.
pub proof fn law_extents_are_listed_in_order(s: Seq<u64>, t: Seq<u64>, x: u64)
    ensures
        listed(seq![x]) == text::decimal(x as int),
        s.len() > 0 && t.len() > 0 ==> listed(s + t) == listed(s) + seq![','] + listed(t),
    decreases t.len(),
{
    assert(seq![x][0] == x);
    if s.len() > 0 && t.len() > 0 {
        let u: Seq<u64> = s + t;
        assert(u.drop_last() =~= s + t.drop_last());
        assert(u.last() == t.last());
        if t.len() == 1 {
            assert(u.drop_last() =~= s);
            assert(t[0] == t.last());
            assert(listed(u) =~= listed(s) + seq![','] + listed(t));
        } else {
            law_extents_are_listed_in_order(s, t.drop_last(), x);
            assert(listed(u) =~= listed(s) + seq![','] + listed(t));
        }
    }
}

/// The text of a tensor type: that of its element type and, unless it is a scalar, its
/// extents in square brackets. The text of an element type: its kind and, in round brackets,
/// the signedness where it is not the kind's own and `ext` where there are more than finite
/// values.
pub proof fn law_type_texts(t: TypeModel)
    ensures
        t.shape.len() == 0 ==> t.rendered() == t.dtype.rendered(),
        t.shape.len() > 0 ==> t.rendered() == t.dtype.rendered() + seq!['['] + listed(t.shape)
            + seq![']'],
        t.dtype.rendered() == (match t.dtype.kind {
            Kind::Bool => "Bool"@,
            Kind::Int => "Int"@,
            Kind::Rat => "Rat"@,
            Kind::F16 => "F16"@,
            Kind::Bf16 => "Bf16"@,
            Kind::F32 => "F32"@,
            Kind::F64 => "F64"@,
        }) + (match (t.dtype.kind is Bool, t.dtype.sign, t.dtype.ext) {
            (true, Sign::NonNeg, Ext::Fin) => Seq::<char>::empty(),
            (false, Sign::Signed, Ext::Fin) => Seq::<char>::empty(),
            (true, Sign::NonNeg, Ext::Ext) => "(ext)"@,
            (false, Sign::Signed, Ext::Ext) => "(ext)"@,
            (true, Sign::Signed, Ext::Fin) => "(signed)"@,
            (false, Sign::NonNeg, Ext::Fin) => "(nonneg)"@,
            (true, Sign::Signed, Ext::Ext) => "(signed,ext)"@,
            (false, Sign::NonNeg, Ext::Ext) => "(nonneg,ext)"@,
        }),
{
    reveal_strlit("ext");
    reveal_strlit("signed");
    reveal_strlit("nonneg");
    reveal_strlit("(ext)");
    reveal_strlit("(signed)");
    reveal_strlit("(nonneg)");
    reveal_strlit("(signed,ext)");
    reveal_strlit("(nonneg,ext)");
    let d: Dtype = t.dtype;
    assert(seq!['('] + "ext"@ + seq![')'] =~= "(ext)"@);
    assert(seq!['('] + "signed"@ + seq![')'] =~= "(signed)"@);
    assert(seq!['('] + "nonneg"@ + seq![')'] =~= "(nonneg)"@);
    assert(seq!['('] + "signed"@ + seq![','] + "ext"@ + seq![')'] =~= "(signed,ext)"@);
    assert(seq!['('] + "nonneg"@ + seq![','] + "ext"@ + seq![')'] =~= "(nonneg,ext)"@);
}

impl TypeModel {
    /// The text of a tensor type: the element type, then the extents in brackets unless it
    /// is a scalar.
    pub open spec fn rendered(self) -> Seq<char> {
        if self.shape.len() == 0 {
            self.dtype.rendered()
        } else {
            self.dtype.rendered() + seq!['['] + listed(self.shape) + seq![']']
        }
    }
}

impl TensorType {
    /// A tensor type.
    pub fn new(dtype: Dtype, shape: Vec<u64>) -> (r: TensorType)
        ensures
            r@ == (TypeModel { dtype, shape: shape@ }),
    {
        TensorType { dtype, shape }
    }

    /// A tensor of exact rationals.
    pub fn rat(shape: Vec<u64>) -> (r: TensorType)
        ensures
            r@ == (TypeModel { dtype: Dtype::rat(), shape: shape@ }),
    {
        TensorType::new(Dtype::rat(), shape)
    }

    /// A tensor of booleans.
    pub fn boolean(shape: Vec<u64>) -> (r: TensorType)
        ensures
            r@ == (TypeModel { dtype: Dtype::boolean(), shape: shape@ }),
    {
        TensorType::new(Dtype::boolean(), shape)
    }

    /// The number of entries: the product of the extents, one for a scalar.
    pub fn size(&self) -> (r: u64)
        ensures
            r == entries(self.shape@),
    {
        count_entries(self.shape.as_slice())
    }

    /// The text of the tensor type.
    pub fn text(&self) -> (r: String)
        ensures
            r@ == self@.rendered(),
    {
        let mut s: String = self.dtype.text();
        if self.shape.len() > 0 {
            push(&mut s, '[');
            let ghost start: Seq<char> = s@;
            let mut i: usize = 0;
            assert(self.shape@.subrange(0, 0).len() == 0);
            assert(s@ =~= start + listed(self.shape@.subrange(0, 0)));
            while i < self.shape.len()
                invariant
                    i <= self.shape@.len(),
                    s@ == start + listed(self.shape@.subrange(0, i as int)),
                decreases self.shape@.len() - i,
            {
                let ghost had: Seq<u64> = self.shape@.subrange(0, i as int);
                let ghost next: Seq<u64> = self.shape@.subrange(0, i + 1);
                if i > 0 {
                    push(&mut s, ',');
                }
                push_decimal(&mut s, self.shape[i]);
                assert(next.drop_last() =~= had);
                assert(next.last() == self.shape@[i as int]);
                i = i + 1;
                assert(s@ =~= start + listed(next));
            }
            assert(self.shape@.subrange(0, i as int) =~= self.shape@);
            push(&mut s, ']');
            assert(s@ =~= self@.rendered());
        }
        s
    }
}

/// The trailing axes of `src` match those of `dst` or have the extent one.
pub open spec fn broadcasts(src: Seq<u64>, dst: Seq<u64>) -> bool {
    &&& src.len() <= dst.len()
    &&& forall|i: int|
        0 <= i < src.len() ==> #[trigger] src[i] == dst[dst.len() - src.len() + i] || src[i] == 1
}

/// Whether a shape broadcasts to another, by the trailing axes.
pub fn broadcasts_to(src: &[u64], dst: &[u64]) -> (r: bool)
    ensures
        r == broadcasts(src@, dst@),
{
    if src.len() > dst.len() {
        return false;
    }
    let shift: usize = dst.len() - src.len();
    let mut i: usize = src.len();
    while i > 0
        invariant
            i <= src.len() <= dst.len(),
            shift == dst@.len() - src@.len(),
            forall|j: int|
                i <= j < src@.len() ==> #[trigger] src@[j] == dst@[shift + j] || src@[j] == 1,
        decreases i,
    {
        i = i - 1;
        let s: u64 = src[i];
        let d: u64 = dst[shift + i];
        if s != d && s != 1 {
            return false;
        }
    }
    true
}

} // verus!
