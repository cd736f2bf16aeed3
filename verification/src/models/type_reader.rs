use crate::error::EnactError;
use vstd::prelude::*;

verus! {

/// The content type readers that this library knows.
#[derive(Debug, Clone, Copy, PartialEq, Eq, Structural)]
pub enum TypeReader {
    Texture2D,
    Effect,
}

/// The type readers of texture content.
#[derive(Debug, Clone, Copy, PartialEq, Eq, Structural)]
pub enum TypeReaders {
    Texture2D,
}

fn same_text(a: &str, b: &str) -> (r: bool)
    ensures
        r == (a@ == b@),
{
    a.to_owned() == b.to_owned()
}

impl TypeReader {
    /// The full name of the reader, as XNB files list it.
    pub open spec fn spec_name(self) -> Seq<char> {
        match self {
            TypeReader::Texture2D => "Microsoft.Xna.Framework.Content.Texture2DReader"@,
            TypeReader::Effect => "Microsoft.Xna.Framework.Content.EffectReader"@,
        }
    }

    /// The reader with the full name `s`.
    pub fn from_name(s: &str) -> (r: Result<TypeReader, EnactError>)
        ensures
            r matches Ok(t) ==> s@ == t.spec_name(),
            r is Err <==> (s@ != TypeReader::Texture2D.spec_name() && s@ != TypeReader::Effect.spec_name()),
            r matches Err(e) ==> e matches EnactError::UnknownTypeReader(name) && name@ == s@,
    {
        if same_text(s, "Microsoft.Xna.Framework.Content.Texture2DReader") {
            Ok(TypeReader::Texture2D)
        } else if same_text(s, "Microsoft.Xna.Framework.Content.EffectReader") {
            Ok(TypeReader::Effect)
        } else {
            Err(EnactError::UnknownTypeReader(s.to_owned()))
        }
    }
}

impl TypeReaders {
    /// The full name of the reader, as XNB files list it.
    pub open spec fn spec_name(self) -> Seq<char> {
        match self {
            TypeReaders::Texture2D => "Microsoft.Xna.Framework.Content.Texture2DReader"@,
        }
    }

    /// The reader with the full name `s`.
    pub fn from_name(s: &str) -> (r: Result<TypeReaders, EnactError>)
        ensures
            r matches Ok(t) ==> s@ == t.spec_name(),
            r is Err <==> s@ != TypeReaders::Texture2D.spec_name(),
            r matches Err(e) ==> e matches EnactError::UnknownTypeReader(name) && name@ == s@,
    {
        if same_text(s, "Microsoft.Xna.Framework.Content.Texture2DReader") {
            Ok(TypeReaders::Texture2D)
        } else {
            Err(EnactError::UnknownTypeReader(s.to_owned()))
        }
    }
}

/// Each reader has its own name, so reading a reader's name gives it back.
pub proof fn lemma_type_reader_names(t: TypeReader, u: TypeReader)
    ensures
        t.spec_name() == u.spec_name() ==> t == u,
        TypeReaders::Texture2D.spec_name() == TypeReader::Texture2D.spec_name(),
{
    reveal_strlit("Microsoft.Xna.Framework.Content.Texture2DReader");
    reveal_strlit("Microsoft.Xna.Framework.Content.EffectReader");
}

impl core::str::FromStr for TypeReader {
    type Err = EnactError;

    fn from_str(s: &str) -> (r: Result<Self, Self::Err>)
        ensures
            r matches Ok(t) ==> s@ == t.spec_name(),
            r is Err <==> (s@ != TypeReader::Texture2D.spec_name() && s@ != TypeReader::Effect.spec_name()),
            r matches Err(e) ==> e matches EnactError::UnknownTypeReader(name) && name@ == s@,
    {
        Self::from_name(s)
    }
}

impl core::str::FromStr for TypeReaders {
    type Err = EnactError;

    fn from_str(s: &str) -> (r: Result<Self, Self::Err>)
        ensures
            r matches Ok(t) ==> s@ == t.spec_name(),
            r is Err <==> s@ != TypeReaders::Texture2D.spec_name(),
            r matches Err(e) ==> e matches EnactError::UnknownTypeReader(name) && name@ == s@,
    {
        Self::from_name(s)
    }
}

} // verus!
