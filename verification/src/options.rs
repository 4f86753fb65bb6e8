use crate::names::same_name;
use crate::unit::AngleUnit;
use vstd::prelude::*;

verus! {

/// The format of a file of transforms.
#[derive(Debug, Clone, Copy, PartialEq, Eq, Hash, Structural)]
pub enum FileFormat {
    Json,
    Json5,
    Yaml,
}

/// The unit in which angles are written out.
#[derive(Debug, Clone, Copy, PartialEq, Eq, Hash, Structural)]
pub enum AngleFormat {
    Deg,
    Rad,
}

/// The encoding in which a rotation is written out.
#[derive(Debug, Clone, Copy, PartialEq, Eq, Hash, Structural)]
pub enum RotationFormat {
    Quat,
    Euler,
    Mat,
    AxisAngle,
    Rodrigues,
}

/// What becomes of the translation when a transform is written out.
#[derive(Debug, Clone, Copy, PartialEq, Eq, Hash, Structural)]
pub enum KeepTranslation {
    Auto,
    Always,
    Discard,
}

impl FileFormat {
    /// The format that a file name extension stands for.
    pub open spec fn spec_from_extension(ext: Seq<char>) -> Option<FileFormat> {
        if ext == "json"@ {
            Some(FileFormat::Json)
        } else if ext == "json5"@ {
            Some(FileFormat::Json5)
        } else if ext == "yaml"@ {
            Some(FileFormat::Yaml)
        } else {
            None
        }
    }

    /// The format that a file name extension stands for: `json`, `json5` or `yaml`.
    pub fn from_extension(ext: &str) -> (r: Option<FileFormat>)
        ensures
            r == Self::spec_from_extension(ext@),
    {
        if same_name(ext, "json") {
            Some(FileFormat::Json)
        } else if same_name(ext, "json5") {
            Some(FileFormat::Json5)
        } else if same_name(ext, "yaml") {
            Some(FileFormat::Yaml)
        } else {
            None
        }
    }

    /// The format that a name asks for.
    pub open spec fn spec_from_name(name: Seq<char>) -> Option<FileFormat> {
        if name == "json"@ {
            Some(FileFormat::Json)
        } else if name == "json5"@ {
            Some(FileFormat::Json5)
        } else if name == "Yaml"@ {
            Some(FileFormat::Yaml)
        } else {
            None
        }
    }

    /// The format that a name asks for: `json`, `json5` or `Yaml`.
    pub fn from_name(name: &str) -> (r: Option<FileFormat>)
        ensures
            r == Self::spec_from_name(name@),
    {
        if same_name(name, "json") {
            Some(FileFormat::Json)
        } else if same_name(name, "json5") {
            Some(FileFormat::Json5)
        } else if same_name(name, "Yaml") {
            Some(FileFormat::Yaml)
        } else {
            None
        }
    }

    /// The format that a file name asks for by its extension, unless `explicit` names one.
    /// Without either there is none.
    pub fn resolve(explicit: Option<FileFormat>, ext: Option<&str>) -> (r: Option<FileFormat>)
        ensures
            r == match (explicit, ext) {
                (Some(format), _) => Some(format),
                (None, Some(ext)) => Self::spec_from_extension(ext@),
                (None, None) => None,
            },
    {
        match explicit {
            Some(format) => Some(format),
            None => match ext {
                Some(ext) => FileFormat::from_extension(ext),
                None => None,
            },
        }
    }
}

impl AngleFormat {
    /// The unit of angles in this format.
    pub fn unit(&self) -> (unit: AngleUnit)
        ensures
            unit == match self {
                AngleFormat::Deg => AngleUnit::Degree,
                AngleFormat::Rad => AngleUnit::Radian,
            },
    {
        match self {
            AngleFormat::Deg => AngleUnit::Degree,
            AngleFormat::Rad => AngleUnit::Radian,
        }
    }
}

impl KeepTranslation {
    /// The translation to write out, where the transform has the translation `given`, if
    /// any, and `zero` is no translation at all: as given, always one, or never one.
    pub fn apply<T>(&self, given: Option<T>, zero: T) -> (kept: Option<T>)
        ensures
            kept == match self {
                KeepTranslation::Auto => given,
                KeepTranslation::Always => match given {
                    Some(t) => Some(t),
                    None => Some(zero),
                },
                KeepTranslation::Discard => None,
            },
    {
        match self {
            KeepTranslation::Auto => given,
            KeepTranslation::Always => match given {
                Some(t) => Some(t),
                None => Some(zero),
            },
            KeepTranslation::Discard => None,
        }
    }
}

} // verus!
