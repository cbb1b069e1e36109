//! Field specifications: the content class, the length class and the maximum
//! length of one data element, and the locator that a message keeps for it.

use vstd::prelude::*;
use vstd::string::StringExecFns;

verus! {

/// Content class of a data element.
#[allow(non_camel_case_types)]
#[derive(Debug, Clone, Copy, PartialEq, Eq, Structural)]
pub enum FieldCharType {
    Iso8583_n,
    Iso8583_ns,
    Iso8583_xn,
    ISO8583_a,
    Iso8583_an,
    Iso8583_ans,
    Iso8583_ansb,
    Iso8583_anp,
    Iso8583_b,
    ISO8583_z,
    Iso8583_bmp,
    Iso8583_bmps,
}

/// Length class of a data element.
#[derive(Debug, Clone, Copy, PartialEq, Eq, Structural)]
pub enum FieldSizeType {
    Fixed,
    LlVar,
    LllVar,
    LlllVar,
    BitMap,
}

/// Whether two texts hold the same characters.
pub(crate) fn same_text(a: &str, b: &str) -> (same: bool)
    ensures
        same == (a@ == b@),
{
    let left = String::from_str(a);
    let right = String::from_str(b);
    left == right
}

impl FieldCharType {
    /// The token that names this content class in a declarative specification.
    pub open spec fn token(self) -> Seq<char> {
        match self {
            FieldCharType::Iso8583_n => "n"@,
            FieldCharType::Iso8583_ns => "ns"@,
            FieldCharType::Iso8583_xn => "xs"@,
            FieldCharType::ISO8583_a => "a"@,
            FieldCharType::Iso8583_an => "an"@,
            FieldCharType::Iso8583_ans => "ans"@,
            FieldCharType::Iso8583_ansb => "ansb"@,
            FieldCharType::Iso8583_anp => "anp"@,
            FieldCharType::Iso8583_b => "b"@,
            FieldCharType::ISO8583_z => "z"@,
            FieldCharType::Iso8583_bmp => "bmp"@,
            FieldCharType::Iso8583_bmps => "bmps"@,
        }
    }

    /// The content class that a token names, if it names one. Tokens are
    /// matched exactly.
    pub open spec fn of_token(t: Seq<char>) -> Option<FieldCharType> {
        if t == "n"@ {
            Some(FieldCharType::Iso8583_n)
        } else if t == "ns"@ {
            Some(FieldCharType::Iso8583_ns)
        } else if t == "xs"@ {
            Some(FieldCharType::Iso8583_xn)
        } else if t == "a"@ {
            Some(FieldCharType::ISO8583_a)
        } else if t == "an"@ {
            Some(FieldCharType::Iso8583_an)
        } else if t == "ans"@ {
            Some(FieldCharType::Iso8583_ans)
        } else if t == "ansb"@ {
            Some(FieldCharType::Iso8583_ansb)
        } else if t == "anp"@ {
            Some(FieldCharType::Iso8583_anp)
        } else if t == "b"@ {
            Some(FieldCharType::Iso8583_b)
        } else if t == "z"@ {
            Some(FieldCharType::ISO8583_z)
        } else if t == "bmp"@ {
            Some(FieldCharType::Iso8583_bmp)
        } else if t == "bmps"@ {
            Some(FieldCharType::Iso8583_bmps)
        } else {
            None
        }
    }

    /// Whether this class marks a presence bitmap.
    pub open spec fn marks_bitmap(self) -> bool {
        self == FieldCharType::Iso8583_bmp || self == FieldCharType::Iso8583_bmps
    }

    pub fn as_str(&self) -> (s: &'static str)
        ensures
            s@ == self.token(),
    {
        match *self {
            FieldCharType::Iso8583_n => "n",
            FieldCharType::Iso8583_ns => "ns",
            FieldCharType::Iso8583_xn => "xs",
            FieldCharType::ISO8583_a => "a",
            FieldCharType::Iso8583_an => "an",
            FieldCharType::Iso8583_ans => "ans",
            FieldCharType::Iso8583_ansb => "ansb",
            FieldCharType::Iso8583_anp => "anp",
            FieldCharType::Iso8583_b => "b",
            FieldCharType::ISO8583_z => "z",
            FieldCharType::Iso8583_bmp => "bmp",
            FieldCharType::Iso8583_bmps => "bmps",
        }
    }

    /// Reads a content-class token.
    pub fn parse(s: &str) -> (r: Result<FieldCharType, ()>)
        ensures
            r == (match FieldCharType::of_token(s@) {
                Some(c) => Ok::<FieldCharType, ()>(c),
                None => Err::<FieldCharType, ()>(()),
            }),
    {
        if same_text(s, "n") {
            Ok(FieldCharType::Iso8583_n)
        } else if same_text(s, "ns") {
            Ok(FieldCharType::Iso8583_ns)
        } else if same_text(s, "xs") {
            Ok(FieldCharType::Iso8583_xn)
        } else if same_text(s, "a") {
            Ok(FieldCharType::ISO8583_a)
        } else if same_text(s, "an") {
            Ok(FieldCharType::Iso8583_an)
        } else if same_text(s, "ans") {
            Ok(FieldCharType::Iso8583_ans)
        } else if same_text(s, "ansb") {
            Ok(FieldCharType::Iso8583_ansb)
        } else if same_text(s, "anp") {
            Ok(FieldCharType::Iso8583_anp)
        } else if same_text(s, "b") {
            Ok(FieldCharType::Iso8583_b)
        } else if same_text(s, "z") {
            Ok(FieldCharType::ISO8583_z)
        } else if same_text(s, "bmp") {
            Ok(FieldCharType::Iso8583_bmp)
        } else if same_text(s, "bmps") {
            Ok(FieldCharType::Iso8583_bmps)
        } else {
            Err(())
        }
    }

    /// Whether this class marks a presence bitmap.
    pub fn is_bitmap(&self) -> (b: bool)
        ensures
            b == self.marks_bitmap(),
    {
        match *self {
            FieldCharType::Iso8583_bmp => true,
            FieldCharType::Iso8583_bmps => true,
            _ => false,
        }
    }

    /// Every content class is named by its own token and by no other.
    pub proof fn lemma_token_names_class(self)
        ensures
            FieldCharType::of_token(self.token()) == Some(self),
    {
        reveal_strlit("n");
        reveal_strlit("ns");
        reveal_strlit("xs");
        reveal_strlit("a");
        reveal_strlit("an");
        reveal_strlit("ans");
        reveal_strlit("ansb");
        reveal_strlit("anp");
        reveal_strlit("b");
        reveal_strlit("z");
        reveal_strlit("bmp");
        reveal_strlit("bmps");
        assert("n"@.len() == 1 && "a"@.len() == 1 && "b"@.len() == 1 && "z"@.len() == 1);
        assert("ns"@.len() == 2 && "xs"@.len() == 2 && "an"@.len() == 2);
        assert("ans"@.len() == 3 && "anp"@.len() == 3 && "bmp"@.len() == 3);
        assert("ansb"@.len() == 4 && "bmps"@.len() == 4);
        assert("n"@[0] == 'n' && "a"@[0] == 'a' && "b"@[0] == 'b' && "z"@[0] == 'z');
        assert("ns"@[0] == 'n' && "xs"@[0] == 'x' && "an"@[0] == 'a');
        assert("ans"@[2] == 's' && "anp"@[2] == 'p' && "bmp"@[0] == 'b');
        assert("ansb"@[0] == 'a' && "bmps"@[0] == 'b');
    }
}

impl std::str::FromStr for FieldCharType {
    type Err = ();

    /// Reads a content-class token; tokens are matched exactly.
    fn from_str(s: &str) -> (r: Result<Self, Self::Err>)
        ensures
            r == (match FieldCharType::of_token(s@) {
                Some(c) => Ok::<FieldCharType, ()>(c),
                None => Err::<FieldCharType, ()>(()),
            }),
    {
        FieldCharType::parse(s)
    }
}

/// The lower-case form of a text, as `str::to_lowercase` gives it.
pub uninterp spec fn lowercase_of(text: Seq<char>) -> Seq<char>;

/// `str::to_lowercase`: the result is the lower-case form of the argument,
/// which depends on the argument alone.
#[verifier::external_body]
fn to_lowercase(s: &str) -> (lower: String)
    ensures
        lower@ == lowercase_of(s@),
{
    s.to_lowercase()
}

impl FieldSizeType {
    /// The token that names this length class in a declarative specification.
    pub open spec fn token(self) -> Seq<char> {
        match self {
            FieldSizeType::Fixed => "fixed"@,
            FieldSizeType::LlVar => "llvar"@,
            FieldSizeType::LllVar => "lllvar"@,
            FieldSizeType::LlllVar => "llllvar"@,
            FieldSizeType::BitMap => "bitmap"@,
        }
    }

    /// The length class that a lower-case token names, if it names one.
    pub open spec fn of_token(t: Seq<char>) -> Option<FieldSizeType> {
        if t == "fixed"@ {
            Some(FieldSizeType::Fixed)
        } else if t == "llvar"@ {
            Some(FieldSizeType::LlVar)
        } else if t == "lllvar"@ {
            Some(FieldSizeType::LllVar)
        } else if t == "llllvar"@ {
            Some(FieldSizeType::LlllVar)
        } else if t == "bitmap"@ {
            Some(FieldSizeType::BitMap)
        } else {
            None
        }
    }

    /// Number of bytes of length prefix that a field of this class carries
    /// on the wire.
    pub open spec fn prefix_width(self) -> nat {
        match self {
            FieldSizeType::LlVar | FieldSizeType::LllVar | FieldSizeType::LlllVar => 3,
            _ => 0,
        }
    }

    pub fn as_str(&self) -> (s: &'static str)
        ensures
            s@ == self.token(),
    {
        match *self {
            FieldSizeType::Fixed => "fixed",
            FieldSizeType::LlVar => "llvar",
            FieldSizeType::LllVar => "lllvar",
            FieldSizeType::LlllVar => "llllvar",
            FieldSizeType::BitMap => "bitmap",
        }
    }

    /// Reads a length-class token that is already in lower case.
    pub fn parse_lower(s: &str) -> (r: Result<FieldSizeType, ()>)
        ensures
            r == (match FieldSizeType::of_token(s@) {
                Some(c) => Ok::<FieldSizeType, ()>(c),
                None => Err::<FieldSizeType, ()>(()),
            }),
    {
        if same_text(s, "fixed") {
            Ok(FieldSizeType::Fixed)
        } else if same_text(s, "llvar") {
            Ok(FieldSizeType::LlVar)
        } else if same_text(s, "lllvar") {
            Ok(FieldSizeType::LllVar)
        } else if same_text(s, "llllvar") {
            Ok(FieldSizeType::LlllVar)
        } else if same_text(s, "bitmap") {
            Ok(FieldSizeType::BitMap)
        } else {
            Err(())
        }
    }

    /// Reads a length-class token, whatever its case.
    pub fn parse(s: &str) -> (r: Result<FieldSizeType, ()>)
        ensures
            r == (match FieldSizeType::of_token(lowercase_of(s@)) {
                Some(c) => Ok::<FieldSizeType, ()>(c),
                None => Err::<FieldSizeType, ()>(()),
            }),
    {
        let lower = to_lowercase(s);
        FieldSizeType::parse_lower(lower.as_str())
    }

    /// Number of bytes of length prefix that a field of this class carries
    /// on the wire.
    pub fn prefix_len(&self) -> (w: usize)
        ensures
            w == self.prefix_width(),
    {
        match *self {
            FieldSizeType::LlVar | FieldSizeType::LllVar | FieldSizeType::LlllVar => 3,
            _ => 0,
        }
    }

    /// Every length class is named by its own token and by no other.
    pub proof fn lemma_token_names_class(self)
        ensures
            FieldSizeType::of_token(self.token()) == Some(self),
    {
        reveal_strlit("fixed");
        reveal_strlit("llvar");
        reveal_strlit("lllvar");
        reveal_strlit("llllvar");
        reveal_strlit("bitmap");
        assert("fixed"@.len() == 5 && "llvar"@.len() == 5);
        assert("lllvar"@.len() == 6 && "bitmap"@.len() == 6);
        assert("llllvar"@.len() == 7);
        assert("fixed"@[0] == 'f' && "llvar"@[0] == 'l');
        assert("lllvar"@[0] == 'l' && "bitmap"@[0] == 'b');
    }
}

impl std::str::FromStr for FieldSizeType {
    type Err = ();

    /// Reads a length-class token, whatever its case.
    fn from_str(s: &str) -> (r: Result<Self, Self::Err>)
        ensures
            r == (match FieldSizeType::of_token(lowercase_of(s@)) {
                Some(c) => Ok::<FieldSizeType, ()>(c),
                None => Err::<FieldSizeType, ()>(()),
            }),
    {
        FieldSizeType::parse(s)
    }
}

/// Specification of one data element.
#[derive(Debug)]
pub struct IsoField {
    pub label: String,
    pub char_type: FieldCharType,
    pub size_type: FieldSizeType,
    pub length: usize,
}

impl IsoField {
    pub fn new(
        label: &str,
        char_type: FieldCharType,
        length: usize,
        size_type: FieldSizeType,
    ) -> (field: IsoField)
        ensures
            field@ == (FieldDecl { label: label@, char_type, size_type, length }),
    {
        IsoField { label: String::from_str(label), char_type, length, size_type }
    }

    /// Number of bytes of length prefix that this field carries on the wire.
    pub open spec fn prefix_width(self) -> nat {
        self.size_type.prefix_width()
    }
}

/// What a field specification says, over plain values.
pub struct FieldDecl {
    pub label: Seq<char>,
    pub char_type: FieldCharType,
    pub size_type: FieldSizeType,
    pub length: usize,
}

impl View for IsoField {
    type V = FieldDecl;

    open spec fn view(&self) -> FieldDecl {
        FieldDecl {
            label: self.label@,
            char_type: self.char_type,
            size_type: self.size_type,
            length: self.length,
        }
    }
}

impl DeepView for IsoField {
    type V = FieldDecl;

    open spec fn deep_view(&self) -> FieldDecl {
        self.view()
    }
}

/// Where a data element lies in the payload that a message was decoded from,
/// and the bytes that replace it once it has been written.
pub struct FieldPayload {
    pub exist: bool,
    pub index: usize,
    pub len: usize,
    pub new_payload: Option<Vec<u8>>,
}

/// What a locator says, over plain values.
pub struct FieldView {
    pub exist: bool,
    pub index: nat,
    pub len: nat,
    pub new_payload: Option<Seq<u8>>,
}

impl View for FieldPayload {
    type V = FieldView;

    open spec fn view(&self) -> FieldView {
        FieldView {
            exist: self.exist,
            index: self.index as nat,
            len: self.len as nat,
            new_payload: match self.new_payload {
                Some(bytes) => Some(bytes@),
                None => None,
            },
        }
    }
}

impl Default for FieldPayload {
    fn default() -> (field: FieldPayload)
        ensures
            field@ == FieldView::absent(),
    {
        FieldPayload { exist: false, index: 0, len: 0, new_payload: None }
    }
}

impl FieldView {
    /// The locator of a data element that the payload does not hold.
    pub open spec fn absent() -> FieldView {
        FieldView { exist: false, index: 0, len: 0, new_payload: None }
    }

    /// The locator of a data element found in the payload.
    pub open spec fn found(index: nat, len: nat) -> FieldView {
        FieldView { exist: true, index, len, new_payload: None }
    }
}

impl FieldPayload {
    pub fn get_new_payload_length(&self) -> (n: usize)
        ensures
            n == (match self@.new_payload {
                Some(bytes) => bytes.len(),
                None => 0,
            }),
    {
        if let Some(ref m) = self.new_payload {
            return m.len();
        } else {
            return 0;
        }
    }
}

} // verus!
