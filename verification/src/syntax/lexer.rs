//! The kinds of tokens and of tree nodes.

use vstd::prelude::*;

verus! {

/// The kind of a token or of a node of the syntax tree.
#[derive(Debug, Clone, Copy, PartialEq, Eq, Structural, PartialOrd, Ord, Hash)]
#[allow(non_camel_case_types)]
pub enum SyntaxKind {
    /// Spaces and tabs.
    Whitespace,
    /// A line feed, with the carriage return before it if there is one.
    Newline,
    /// From `//` to the end of the line.
    Comment,
    Comma,
    Colon,
    Semicolon,
    At,
    /// A spelled pitch with its octave, such as `C#4`.
    PitchSpellOctave,
    /// A spelled pitch without octave, such as `Db`.
    PitchSpellSimple,
    /// A number, read as a frequency in Hz or as a step of the current
    /// equal division.
    PitchFrequency,
    /// A ratio such as `3/2`; also the form of a time signature.
    PitchRatio,
    /// A step of an equal division of the octave, such as `7\12`.
    PitchEdo,
    /// An offset in cents, such as `-50c`.
    PitchCents,
    /// One or more dots.
    PitchRest,
    /// A single `-`.
    PitchSustain,
    Identifier,
    /// `[,,,]`
    DurationCommas,
    /// `[3]` or `[3:2]`
    DurationFraction,
    /// `{4}` or `{4:3}`
    Quantize,
    Equals,
    LAngle,
    RAngle,
    LParen,
    RParen,
    Plus,
    /// Bytes that start no token, or a token whose numbers are out of range.
    Error,
    NODE_ROOT,
    NODE_MACRODEF_SIMPLE,
    NODE_MACRODEF_ALIAS,
    NODE_MACRODEF_COMPLEX,
    NODE_MACRODEF_COMPLEX_BODY,
    NODE_GHOST_LINE,
    NODE_NORMAL_LINE,
    NODE_NOTE_GROUP,
    NODE_NOTE,
    NODE_PITCH_CHAIN,
    NODE_MACRO_INVOKE,
    NODE_BASE_PITCH_DEF,
    NODE_BPM_DEF,
    NODE_TIME_SIGNATURE_DEF,
}

impl SyntaxKind {
    /// Blank space and comments: kept in the tree, skipped by the parser's
    /// lookahead. Line ends are not trivia: the grammar reads them.
    pub open spec fn spec_is_trivia(&self) -> bool {
        *self == SyntaxKind::Whitespace || *self == SyntaxKind::Comment
    }

    pub open spec fn spec_is_node(&self) -> bool {
        *self == SyntaxKind::NODE_ROOT || *self == SyntaxKind::NODE_MACRODEF_SIMPLE || *self
            == SyntaxKind::NODE_MACRODEF_ALIAS || *self == SyntaxKind::NODE_MACRODEF_COMPLEX
            || *self == SyntaxKind::NODE_MACRODEF_COMPLEX_BODY || *self
            == SyntaxKind::NODE_GHOST_LINE || *self == SyntaxKind::NODE_NORMAL_LINE || *self
            == SyntaxKind::NODE_NOTE_GROUP || *self == SyntaxKind::NODE_NOTE || *self
            == SyntaxKind::NODE_PITCH_CHAIN || *self == SyntaxKind::NODE_MACRO_INVOKE || *self
            == SyntaxKind::NODE_BASE_PITCH_DEF || *self == SyntaxKind::NODE_BPM_DEF || *self
            == SyntaxKind::NODE_TIME_SIGNATURE_DEF
    }

    /// The six kinds of pitch atoms that name a pitch.
    pub open spec fn spec_is_pitch(&self) -> bool {
        *self == SyntaxKind::PitchSpellOctave || *self == SyntaxKind::PitchSpellSimple || *self
            == SyntaxKind::PitchFrequency || *self == SyntaxKind::PitchRatio || *self
            == SyntaxKind::PitchEdo || *self == SyntaxKind::PitchCents
    }

    /// Rest and sustain: atoms that stand where a pitch stands and name none.
    pub open spec fn spec_is_formal_pitch(&self) -> bool {
        *self == SyntaxKind::PitchSustain || *self == SyntaxKind::PitchRest
    }

    #[verifier::when_used_as_spec(spec_is_trivia)]
    pub fn is_trivia(&self) -> (b: bool)
        ensures
            b == self.spec_is_trivia(),
    {
        matches!(self, SyntaxKind::Whitespace | SyntaxKind::Comment)
    }

    pub fn is_token(&self) -> (b: bool)
        ensures
            b == !self.spec_is_node(),
    {
        !self.is_node()
    }

    #[verifier::when_used_as_spec(spec_is_node)]
    pub fn is_node(&self) -> (b: bool)
        ensures
            b == self.spec_is_node(),
    {
        match self {
            SyntaxKind::NODE_ROOT
            | SyntaxKind::NODE_MACRODEF_SIMPLE
            | SyntaxKind::NODE_MACRODEF_ALIAS
            | SyntaxKind::NODE_MACRODEF_COMPLEX
            | SyntaxKind::NODE_MACRODEF_COMPLEX_BODY
            | SyntaxKind::NODE_GHOST_LINE
            | SyntaxKind::NODE_NORMAL_LINE
            | SyntaxKind::NODE_NOTE_GROUP
            | SyntaxKind::NODE_NOTE
            | SyntaxKind::NODE_PITCH_CHAIN
            | SyntaxKind::NODE_MACRO_INVOKE
            | SyntaxKind::NODE_BASE_PITCH_DEF
            | SyntaxKind::NODE_BPM_DEF
            | SyntaxKind::NODE_TIME_SIGNATURE_DEF => true,
            _ => false,
        }
    }

    #[verifier::when_used_as_spec(spec_is_pitch)]
    pub fn is_pitch(&self) -> (b: bool)
        ensures
            b == self.spec_is_pitch(),
    {
        matches!(
            self,
            SyntaxKind::PitchSpellOctave
                | SyntaxKind::PitchSpellSimple
                | SyntaxKind::PitchFrequency
                | SyntaxKind::PitchRatio
                | SyntaxKind::PitchEdo
                | SyntaxKind::PitchCents
        )
    }

    #[verifier::when_used_as_spec(spec_is_formal_pitch)]
    pub fn is_formal_pitch(&self) -> (b: bool)
        ensures
            b == self.spec_is_formal_pitch(),
    {
        matches!(self, SyntaxKind::PitchSustain | SyntaxKind::PitchRest)
    }

    /// The name of the kind as characters.
    pub open spec fn spec_name(&self) -> Seq<char> {
        match self {
            SyntaxKind::Whitespace => "Whitespace"@,
            SyntaxKind::Newline => "Newline"@,
            SyntaxKind::Comment => "Comment"@,
            SyntaxKind::Comma => "Comma"@,
            SyntaxKind::Colon => "Colon"@,
            SyntaxKind::Semicolon => "Semicolon"@,
            SyntaxKind::At => "At"@,
            SyntaxKind::PitchSpellOctave => "PitchSpellOctave"@,
            SyntaxKind::PitchSpellSimple => "PitchSpellSimple"@,
            SyntaxKind::PitchFrequency => "PitchFrequency"@,
            SyntaxKind::PitchRatio => "PitchRatio"@,
            SyntaxKind::PitchEdo => "PitchEdo"@,
            SyntaxKind::PitchCents => "PitchCents"@,
            SyntaxKind::PitchRest => "PitchRest"@,
            SyntaxKind::PitchSustain => "PitchSustain"@,
            SyntaxKind::Identifier => "Identifier"@,
            SyntaxKind::DurationCommas => "DurationCommas"@,
            SyntaxKind::DurationFraction => "DurationFraction"@,
            SyntaxKind::Quantize => "Quantize"@,
            SyntaxKind::Equals => "Equals"@,
            SyntaxKind::LAngle => "LAngle"@,
            SyntaxKind::RAngle => "RAngle"@,
            SyntaxKind::LParen => "LParen"@,
            SyntaxKind::RParen => "RParen"@,
            SyntaxKind::Plus => "Plus"@,
            SyntaxKind::Error => "Error"@,
            SyntaxKind::NODE_ROOT => "NODE_ROOT"@,
            SyntaxKind::NODE_MACRODEF_SIMPLE => "NODE_MACRODEF_SIMPLE"@,
            SyntaxKind::NODE_MACRODEF_ALIAS => "NODE_MACRODEF_ALIAS"@,
            SyntaxKind::NODE_MACRODEF_COMPLEX => "NODE_MACRODEF_COMPLEX"@,
            SyntaxKind::NODE_MACRODEF_COMPLEX_BODY => "NODE_MACRODEF_COMPLEX_BODY"@,
            SyntaxKind::NODE_GHOST_LINE => "NODE_GHOST_LINE"@,
            SyntaxKind::NODE_NORMAL_LINE => "NODE_NORMAL_LINE"@,
            SyntaxKind::NODE_NOTE_GROUP => "NODE_NOTE_GROUP"@,
            SyntaxKind::NODE_NOTE => "NODE_NOTE"@,
            SyntaxKind::NODE_PITCH_CHAIN => "NODE_PITCH_CHAIN"@,
            SyntaxKind::NODE_MACRO_INVOKE => "NODE_MACRO_INVOKE"@,
            SyntaxKind::NODE_BASE_PITCH_DEF => "NODE_BASE_PITCH_DEF"@,
            SyntaxKind::NODE_BPM_DEF => "NODE_BPM_DEF"@,
            SyntaxKind::NODE_TIME_SIGNATURE_DEF => "NODE_TIME_SIGNATURE_DEF"@,
        }
    }

    /// The name of the kind, as it is written in this file.
    pub fn name(&self) -> (s: &'static str)
        ensures
            s@ == self.spec_name(),
    {
        match self {
            SyntaxKind::Whitespace => "Whitespace",
            SyntaxKind::Newline => "Newline",
            SyntaxKind::Comment => "Comment",
            SyntaxKind::Comma => "Comma",
            SyntaxKind::Colon => "Colon",
            SyntaxKind::Semicolon => "Semicolon",
            SyntaxKind::At => "At",
            SyntaxKind::PitchSpellOctave => "PitchSpellOctave",
            SyntaxKind::PitchSpellSimple => "PitchSpellSimple",
            SyntaxKind::PitchFrequency => "PitchFrequency",
            SyntaxKind::PitchRatio => "PitchRatio",
            SyntaxKind::PitchEdo => "PitchEdo",
            SyntaxKind::PitchCents => "PitchCents",
            SyntaxKind::PitchRest => "PitchRest",
            SyntaxKind::PitchSustain => "PitchSustain",
            SyntaxKind::Identifier => "Identifier",
            SyntaxKind::DurationCommas => "DurationCommas",
            SyntaxKind::DurationFraction => "DurationFraction",
            SyntaxKind::Quantize => "Quantize",
            SyntaxKind::Equals => "Equals",
            SyntaxKind::LAngle => "LAngle",
            SyntaxKind::RAngle => "RAngle",
            SyntaxKind::LParen => "LParen",
            SyntaxKind::RParen => "RParen",
            SyntaxKind::Plus => "Plus",
            SyntaxKind::Error => "Error",
            SyntaxKind::NODE_ROOT => "NODE_ROOT",
            SyntaxKind::NODE_MACRODEF_SIMPLE => "NODE_MACRODEF_SIMPLE",
            SyntaxKind::NODE_MACRODEF_ALIAS => "NODE_MACRODEF_ALIAS",
            SyntaxKind::NODE_MACRODEF_COMPLEX => "NODE_MACRODEF_COMPLEX",
            SyntaxKind::NODE_MACRODEF_COMPLEX_BODY => "NODE_MACRODEF_COMPLEX_BODY",
            SyntaxKind::NODE_GHOST_LINE => "NODE_GHOST_LINE",
            SyntaxKind::NODE_NORMAL_LINE => "NODE_NORMAL_LINE",
            SyntaxKind::NODE_NOTE_GROUP => "NODE_NOTE_GROUP",
            SyntaxKind::NODE_NOTE => "NODE_NOTE",
            SyntaxKind::NODE_PITCH_CHAIN => "NODE_PITCH_CHAIN",
            SyntaxKind::NODE_MACRO_INVOKE => "NODE_MACRO_INVOKE",
            SyntaxKind::NODE_BASE_PITCH_DEF => "NODE_BASE_PITCH_DEF",
            SyntaxKind::NODE_BPM_DEF => "NODE_BPM_DEF",
            SyntaxKind::NODE_TIME_SIGNATURE_DEF => "NODE_TIME_SIGNATURE_DEF",
        }
    }
}

} // verus!
