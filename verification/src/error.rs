//! Input and output errors of one conversion, and the report of resources
//! that were found missing before voxelization begins. Paths are carried as
//! plain strings.

use vstd::prelude::*;

verus! {

use crate::text::{usize_to_string, dec_digits};

/// Everything that can go wrong around one conversion: input errors are
/// surfaced before voxelization begins, output errors after assembly.
pub enum ConversionError {
    ObjFileNotFound { path: String },
    ObjParseError(String),
    NoMaterials,
    MaterialFileNotFound { path: String },
    TextureNotFound { path: String, material: String },
    TextureLoadError { path: String, reason: String },
    OutputDirError { path: String },
    SaveWriteError(String),
    Io(String),
}

/// Result type for conversion operations.
pub type ConversionResult<T> = Result<T, ConversionError>;

/// The exact text of an error message.
pub open spec fn message_spec(e: ConversionError) -> Seq<char> {
    match e {
        ConversionError::ObjFileNotFound { path } => "Failed to open OBJ file: "@ + path@,
        ConversionError::ObjParseError(what) => "Failed to parse OBJ file: "@ + what@,
        ConversionError::NoMaterials => "No materials found in OBJ file"@,
        ConversionError::MaterialFileNotFound { path } => "Material file not found: "@ + path@,
        ConversionError::TextureNotFound { path, material } => "Texture file not found: "@ + path@
            + " for material "@ + material@,
        ConversionError::TextureLoadError { path, reason } => "Failed to load texture "@ + path@
            + ": "@ + reason@,
        ConversionError::OutputDirError { path } => "Failed to create output directory: "@
            + path@,
        ConversionError::SaveWriteError(what) => "Failed to write save file: "@ + what@,
        ConversionError::Io(what) => "IO error: "@ + what@,
    }
}

impl ConversionError {
    /// A short human-readable account of the error.
    pub fn message(&self) -> (s: String)
        ensures
            s@ == message_spec(*self),
            s@.len() > 0,
    {
        proof {
            reveal_strlit("Failed to open OBJ file: ");
            reveal_strlit("Failed to parse OBJ file: ");
            reveal_strlit("No materials found in OBJ file");
            reveal_strlit("Material file not found: ");
            reveal_strlit("Texture file not found: ");
            reveal_strlit(" for material ");
            reveal_strlit("Failed to load texture ");
            reveal_strlit(": ");
            reveal_strlit("Failed to create output directory: ");
            reveal_strlit("Failed to write save file: ");
            reveal_strlit("IO error: ");
        }
        match self {
            ConversionError::ObjFileNotFound { path } => {
                let mut s = "Failed to open OBJ file: ".to_owned();
                s.append(path.as_str());
                s
            },
            ConversionError::ObjParseError(what) => {
                let mut s = "Failed to parse OBJ file: ".to_owned();
                s.append(what.as_str());
                s
            },
            ConversionError::NoMaterials => "No materials found in OBJ file".to_owned(),
            ConversionError::MaterialFileNotFound { path } => {
                let mut s = "Material file not found: ".to_owned();
                s.append(path.as_str());
                s
            },
            ConversionError::TextureNotFound { path, material } => {
                let mut s = "Texture file not found: ".to_owned();
                s.append(path.as_str());
                s.append(" for material ");
                s.append(material.as_str());
                s
            },
            ConversionError::TextureLoadError { path, reason } => {
                let mut s = "Failed to load texture ".to_owned();
                s.append(path.as_str());
                s.append(": ");
                s.append(reason.as_str());
                s
            },
            ConversionError::OutputDirError { path } => {
                let mut s = "Failed to create output directory: ".to_owned();
                s.append(path.as_str());
                s
            },
            ConversionError::SaveWriteError(what) => {
                let mut s = "Failed to write save file: ".to_owned();
                s.append(what.as_str());
                s
            },
            ConversionError::Io(what) => {
                let mut s = "IO error: ".to_owned();
                s.append(what.as_str());
                s
            },
        }
    }
}

/// Missing resources that the user should be told about before a
/// conversion proceeds: textures that could not be found, each with its
/// material's name and its expected path, and a missing material file.
pub struct MissingResources {
    pub missing_textures: Vec<(String, String)>,
    pub missing_materials: bool,
}

impl MissingResources {
    /// An empty report: nothing missing.
    pub fn new() -> (r: MissingResources)
        ensures
            r.missing_textures@.len() == 0,
            !r.missing_materials,
    {
        MissingResources { missing_textures: Vec::new(), missing_materials: false }
    }

    /// Whether anything at all is missing.
    pub fn has_issues(&self) -> (b: bool)
        ensures
            b == (self.missing_textures@.len() > 0 || self.missing_materials),
    {
        !self.missing_textures.is_empty() || self.missing_materials
    }

    /// A human-readable list of everything missing: one line for a missing
    /// material file, then the count of missing textures and one entry per
    /// texture with its material and expected path. Empty exactly when
    /// nothing is missing.
    pub fn description(&self) -> (s: String)
        ensures
            s@ == description_spec(*self),
            (s@.len() > 0) == (self.missing_textures@.len() > 0 || self.missing_materials),
    {
        proof {
            reveal_strlit("- No material file (.mtl) found\n");
            reveal_strlit("- ");
            reveal_strlit(" missing texture(s):\n\n");
            reveal_strlit("  Material: ");
            reveal_strlit("\n  Expected: ");
            reveal_strlit("\n\n");
        }
        let mut s = String::new();
        if self.missing_materials {
            s.append("- No material file (.mtl) found\n");
        }
        let ghost s_mat = s@;
        if !self.missing_textures.is_empty() {
            s.append("- ");
            let count = usize_to_string(self.missing_textures.len());
            proof {
                lemma_dec_digits_len(self.missing_textures@.len() as nat);
            }
            s.append(count.as_str());
            s.append(" missing texture(s):\n\n");
            let n = self.missing_textures.len();
            let ghost s_head = s@;
            proof {
                assert(s_head =~= s_mat + "- "@ + dec_digits(self.missing_textures@.len() as nat)
                    + " missing texture(s):\n\n"@);
            }
            let mut i: usize = 0;
            while i < n
                invariant
                    i <= n,
                    n == self.missing_textures@.len(),
                    s@ == s_head + texture_lines_spec(self.missing_textures@.take(i as int)),
                    s_head.len() > 0,
                decreases n - i,
            {
                proof {
                    assert(self.missing_textures@.take(i + 1).drop_last()
                        =~= self.missing_textures@.take(i as int));
                    assert(self.missing_textures@.take(i + 1).last()
                        == self.missing_textures@[i as int]);
                }
                s.append("  Material: ");
                s.append(self.missing_textures[i].0.as_str());
                s.append("\n  Expected: ");
                s.append(self.missing_textures[i].1.as_str());
                s.append("\n\n");
                proof {
                    assert(s@ =~= s_head + texture_lines_spec(
                        self.missing_textures@.take(i + 1),
                    ));
                }
                i = i + 1;
            }
            proof {
                assert(self.missing_textures@.take(n as int) =~= self.missing_textures@);
                assert(s@ =~= description_spec(*self));
            }
        } else {
            proof {
                assert(s@ =~= description_spec(*self));
            }
        }
        s
    }
}

/// One missing texture's report entry: the material's name and the path
/// where the texture was expected.
pub open spec fn texture_line_spec(e: (String, String)) -> Seq<char> {
    "  Material: "@ + e.0@ + "\n  Expected: "@ + e.1@ + "\n\n"@
}

pub open spec fn texture_lines_spec(ts: Seq<(String, String)>) -> Seq<char>
    decreases ts.len(),
{
    if ts.len() == 0 {
        Seq::empty()
    } else {
        texture_lines_spec(ts.drop_last()) + texture_line_spec(ts.last())
    }
}

/// The exact text of a missing-resources report.
pub open spec fn description_spec(r: MissingResources) -> Seq<char> {
    (if r.missing_materials {
        "- No material file (.mtl) found\n"@
    } else {
        Seq::empty()
    }) + (if r.missing_textures@.len() > 0 {
        "- "@ + dec_digits(r.missing_textures@.len() as nat) + " missing texture(s):\n\n"@
            + texture_lines_spec(r.missing_textures@)
    } else {
        Seq::empty()
    })
}

/// A decimal rendering is never empty.
proof fn lemma_dec_digits_len(n: nat)
    ensures
        dec_digits(n).len() >= 1,
    decreases n,
{
    if n >= 10 {
        lemma_dec_digits_len(n / 10);
    }
}

} // verus!
