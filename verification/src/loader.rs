use vstd::prelude::*;

use crate::error::{RunomeError, ValidationIssue};

verus! {

/// What was found on disk at a path: how it displays, whether it exists, and whether
/// it is a directory or a regular file.
#[derive(Debug, Clone)]
pub struct PathFacts {
    pub display: String,
    pub exists: bool,
    pub is_dir: bool,
    pub is_file: bool,
}

/// The result of checking a dictionary directory with facts `dir`: not found when it
/// does not exist, rejected when it is not a directory, else fine.
pub open spec fn directory_result(dir: PathFacts, r: Result<(), RunomeError>) -> bool {
    if !dir.exists {
        r matches Err(RunomeError::DictDirectoryNotFound { path }) && path@ == dir.display@
    } else if !dir.is_dir {
        r matches Err(RunomeError::DictValidationError { reason: ValidationIssue::NotADirectory { path } })
            && path@ == dir.display@
    } else {
        r is Ok
    }
}

/// The result of checking the file `filename`, with facts `file`, in a dictionary
/// directory with facts `dir`: the directory's error, a missing file, a path that is
/// not a file, or the file's path.
pub open spec fn file_result(
    dir: PathFacts,
    filename: Seq<char>,
    file: PathFacts,
    r: Result<String, RunomeError>,
) -> bool {
    if !dir.exists || !dir.is_dir {
        &&& r is Err
        &&& directory_result(
            dir,
            match r {
                Err(e) => Err(e),
                Ok(_) => Ok(()),
            },
        )
    } else if !file.exists {
        r matches Err(RunomeError::DictFileMissing { filename: f }) && f@ == filename
    } else if !file.is_file {
        r matches Err(RunomeError::DictValidationError { reason: ValidationIssue::NotAFile { path } })
            && path@ == file.display@
    } else {
        r matches Ok(p) && p@ == file.display@
    }
}

/// Checks that the dictionary directory exists and is a directory.
pub fn validate_sysdic_directory(path: &PathFacts) -> (r: Result<(), RunomeError>)
    ensures
        directory_result(*path, r),
{
    if !path.exists {
        return Err(RunomeError::DictDirectoryNotFound { path: path.display.clone() });
    }
    if !path.is_dir {
        return Err(
            RunomeError::DictValidationError {
                reason: ValidationIssue::NotADirectory { path: path.display.clone() },
            },
        );
    }
    Ok(())
}

/// Checks the directory, then that the file `filename` in it (with facts `file`)
/// exists and is a regular file; gives the file's path.
pub fn validate_file_exists(sysdic_dir: &PathFacts, filename: &str, file: &PathFacts) -> (r: Result<
    String,
    RunomeError,
>)
    ensures
        file_result(*sysdic_dir, filename@, *file, r),
{
    match validate_sysdic_directory(sysdic_dir) {
        Ok(()) => {},
        Err(e) => {
            return Err(e);
        },
    }
    if !file.exists {
        return Err(RunomeError::DictFileMissing { filename: String::from_str(filename) });
    }
    if !file.is_file {
        return Err(
            RunomeError::DictValidationError {
                reason: ValidationIssue::NotAFile { path: file.display.clone() },
            },
        );
    }
    Ok(file.display.clone())
}

/// The name of the file that holds the dictionary's surface automaton.
pub open spec fn fst_file_name() -> Seq<char> {
    "dic.fst"@
}

/// Checks the directory and its surface automaton file `dic.fst` (with facts
/// `file`); gives the file's path.
pub fn fst_file_path(sysdic_dir: &PathFacts, file: &PathFacts) -> (r: Result<String, RunomeError>)
    ensures
        file_result(*sysdic_dir, fst_file_name(), *file, r),
{
    validate_file_exists(sysdic_dir, "dic.fst", file)
}

} // verus!
