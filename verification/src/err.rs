//! Decode and encode errors, and the spec-level error classes that the
//! codec specifications speak about.

use vstd::prelude::*;

verus! {

/// Spec-level classification of a decode failure.  The executable error type
/// [`LLSDError`] carries diagnostic payloads; its class, given by
/// [`LLSDError::class`], is what the specification functions of the codecs
/// pin down exactly.
pub enum ErrClass {
    /// Sentinel or prefix mismatch on a full-message decode.
    MalformedHeader,
    /// Buffer or document exhausted in the middle of a field or element.
    TruncatedInput,
    /// A type-tag byte that names no variant.
    UnknownTypeTag,
    /// A text element name that names no variant.
    UnknownElementName,
    /// Missing or mismatched composite terminator, or bad key framing.
    UnterminatedComposite,
    /// Open and close element names differ.
    TagMismatch,
    /// Unrecognized `encoding` attribute, malformed payload for the named
    /// encoding, or a malformed entity reference.
    InvalidEncoding,
    /// Integer, real or date literal that does not parse.
    InvalidNumericLiteral,
    /// Byte sequence that is not valid UTF-8.
    InvalidUtf8,
    /// The dispatcher exhausted all detection strategies.
    FormatNotRecognized,
    /// Input nesting exceeds the maximum nesting depth.
    DepthLimitExceeded,
}

/// A decode or encode failure, with diagnostic payloads where practical:
/// a byte offset for the binary codec, a character position for the text
/// codec, and the conflicting tokens.
#[derive(Debug, PartialEq, Eq)]
pub enum LLSDError {
    /// Sentinel or prefix mismatch on a full-message binary decode.
    MalformedHeader { offset: usize },
    /// Buffer or document exhausted in the middle of a field or element.
    TruncatedInput { offset: usize },
    /// A type-tag byte that names no variant.
    UnknownTypeTag { tag: u8, offset: usize },
    /// A text element name that names no variant.
    UnknownElementName { name: String, position: usize },
    /// Missing or mismatched composite terminator, or bad key framing.
    UnterminatedComposite { found: u8, offset: usize },
    /// Open and close element names differ.
    TagMismatch { open: String, close: String, position: usize },
    /// Unrecognized `encoding` attribute, malformed payload for the named
    /// encoding, or a malformed entity reference.
    InvalidEncoding { detail: String, position: usize },
    /// Integer, real or date literal that does not parse.
    InvalidNumericLiteral { text: String, position: usize },
    /// Byte sequence that is not valid UTF-8.
    InvalidUtf8 { offset: usize },
    /// The dispatcher exhausted all detection strategies; the snippet is a
    /// bounded, character-boundary-safe prefix of the rejected input.
    FormatNotRecognized { snippet: String },
    /// Input nesting exceeds the maximum nesting depth.
    DepthLimitExceeded,
}

impl LLSDError {
    /// The spec-level class of this error.
    pub open spec fn class(&self) -> ErrClass {
        match self {
            LLSDError::MalformedHeader { .. } => ErrClass::MalformedHeader,
            LLSDError::TruncatedInput { .. } => ErrClass::TruncatedInput,
            LLSDError::UnknownTypeTag { .. } => ErrClass::UnknownTypeTag,
            LLSDError::UnknownElementName { .. } => ErrClass::UnknownElementName,
            LLSDError::UnterminatedComposite { .. } => ErrClass::UnterminatedComposite,
            LLSDError::TagMismatch { .. } => ErrClass::TagMismatch,
            LLSDError::InvalidEncoding { .. } => ErrClass::InvalidEncoding,
            LLSDError::InvalidNumericLiteral { .. } => ErrClass::InvalidNumericLiteral,
            LLSDError::InvalidUtf8 { .. } => ErrClass::InvalidUtf8,
            LLSDError::FormatNotRecognized { .. } => ErrClass::FormatNotRecognized,
            LLSDError::DepthLimitExceeded => ErrClass::DepthLimitExceeded,
        }
    }

    /// A short human-readable description of the error kind.
    pub fn kind_name(&self) -> (r: &'static str)
        ensures
            r@.len() > 0,
    {
        proof {
            reveal_strlit("header sentinel mismatch");
            reveal_strlit("truncated input");
            reveal_strlit("unknown type tag");
            reveal_strlit("unknown element name");
            reveal_strlit("unterminated composite");
            reveal_strlit("mismatched open/close tags");
            reveal_strlit("invalid encoding");
            reveal_strlit("invalid numeric literal");
            reveal_strlit("invalid UTF-8");
            reveal_strlit("format not recognized");
            reveal_strlit("nesting depth limit exceeded");
        }
        match self {
            LLSDError::MalformedHeader { .. } => "header sentinel mismatch",
            LLSDError::TruncatedInput { .. } => "truncated input",
            LLSDError::UnknownTypeTag { .. } => "unknown type tag",
            LLSDError::UnknownElementName { .. } => "unknown element name",
            LLSDError::UnterminatedComposite { .. } => "unterminated composite",
            LLSDError::TagMismatch { .. } => "mismatched open/close tags",
            LLSDError::InvalidEncoding { .. } => "invalid encoding",
            LLSDError::InvalidNumericLiteral { .. } => "invalid numeric literal",
            LLSDError::InvalidUtf8 { .. } => "invalid UTF-8",
            LLSDError::FormatNotRecognized { .. } => "format not recognized",
            LLSDError::DepthLimitExceeded => "nesting depth limit exceeded",
        }
    }
}

impl LLSDError {
    /// A human-readable description: the kind, and the byte offset or
    /// character position where the error arose.
    pub fn message(&self) -> (r: String)
        ensures
            r@.len() > 0,
    {
        let mut out = <String as vstd::string::StringExecFns>::from_str(self.kind_name());
        match self {
            LLSDError::MalformedHeader { offset } => push_location(&mut out, *offset),
            LLSDError::TruncatedInput { offset } => push_location(&mut out, *offset),
            LLSDError::UnknownTypeTag { offset, .. } => push_location(&mut out, *offset),
            LLSDError::UnknownElementName { position, .. } => push_location(&mut out, *position),
            LLSDError::UnterminatedComposite { offset, .. } => push_location(&mut out, *offset),
            LLSDError::TagMismatch { open, close, position } => {
                out.append(": <");
                out.append(open.as_str());
                out.append("> .. </");
                out.append(close.as_str());
                out.append(">");
                push_location(&mut out, *position);
            },
            LLSDError::InvalidEncoding { position, .. } => push_location(&mut out, *position),
            LLSDError::InvalidNumericLiteral { text, position } => {
                out.append(": ");
                out.append(text.as_str());
                push_location(&mut out, *position);
            },
            LLSDError::InvalidUtf8 { offset } => push_location(&mut out, *offset),
            LLSDError::FormatNotRecognized { snippet } => {
                out.append(": ");
                out.append(snippet.as_str());
            },
            LLSDError::DepthLimitExceeded => {},
        }
        proof {
            assert(out@.len() > 0);
        }
        out
    }
}

/// Append " at position N".
fn push_location(out: &mut String, position: usize)
    ensures
        final(out)@.len() >= old(out)@.len(),
{
    out.append(" at position ");
    crate::textnum::push_udec64(out, position as u64);
}

} // verus!
