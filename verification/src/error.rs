//! The failures that end a run, and the warnings that do not.

use vstd::prelude::*;
use vstd::string::*;

verus! {

/// Why a run failed.
#[derive(Debug)]
pub enum Error {
    /// The file system refused an operation on `path`.
    Io { path: String, source: String, context: String },
    /// A required configuration variable is not set.
    Env { var: String },
    /// The list of packages is not what it should be.
    Json { message: String },
    /// Two contributors claim one path and nothing settles it. Both are quoted, and a
    /// dangling symbolic link is called so.
    Collision { old: String, new: String },
    /// A package in the store is a plain file.
    StorePath { path: String },
    /// A path had to be a directory and is not. Planning over a snapshot never ends so: a
    /// candidate that meets nothing in the plan is installed or merged. The failure is for
    /// those who walk a file system that changes under them.
    NotADirectory { path: String },
    /// No list of packages was given.
    MissingPackages,
}

/// The mathematical content of an [`Error`].
pub enum Failure {
    Io { path: Seq<char>, source: Seq<char>, context: Seq<char> },
    Env { var: Seq<char> },
    Json { message: Seq<char> },
    Collision { old: Seq<char>, new: Seq<char> },
    StorePath { path: Seq<char> },
    NotADirectory { path: Seq<char> },
    MissingPackages,
}

impl View for Error {
    type V = Failure;

    open spec fn view(&self) -> Failure {
        match *self {
            Error::Io { path, source, context } => Failure::Io {
                path: path@,
                source: source@,
                context: context@,
            },
            Error::Env { var } => Failure::Env { var: var@ },
            Error::Json { message } => Failure::Json { message: message@ },
            Error::Collision { old, new } => Failure::Collision { old: old@, new: new@ },
            Error::StorePath { path } => Failure::StorePath { path: path@ },
            Error::NotADirectory { path } => Failure::NotADirectory { path: path@ },
            Error::MissingPackages => Failure::MissingPackages,
        }
    }
}

impl Failure {
    /// The message that tells a person of the failure.
    pub open spec fn message(self) -> Seq<char> {
        match self {
            Failure::Io { path, source, context } => context + " ("@ + path + "): "@ + source,
            Failure::Env { var } => "Missing required environment variable '"@ + var + "'"@,
            Failure::Json { message } => "JSON error: "@ + message,
            Failure::Collision { old, new } => "collision between "@ + old + " and "@ + new,
            Failure::StorePath { path } => "The store path "@ + path
                + " is a file and can't be merged into an environment using pkgs.buildEnv!"@,
            Failure::NotADirectory { path } => "not a directory: `"@ + path + "''"@,
            Failure::MissingPackages =>
                "No packages specified: neither 'pkgs' nor 'pkgsPath' environment variable is set"@,
        }
    }
}

impl Error {
    /// The message that tells a person of the failure.
    pub fn message(&self) -> (r: String)
        ensures
            r@ == self@.message(),
    {
        match self {
            Error::Io { path, source, context } => {
                let mut out = context.clone();
                out.append(" (");
                out.append(path.as_str());
                out.append("): ");
                out.append(source.as_str());
                out
            },
            Error::Env { var } => {
                let mut out = String::from_str("Missing required environment variable '");
                out.append(var.as_str());
                out.append("'");
                out
            },
            Error::Json { message } => {
                let mut out = String::from_str("JSON error: ");
                out.append(message.as_str());
                out
            },
            Error::Collision { old, new } => {
                let mut out = String::from_str("collision between ");
                out.append(old.as_str());
                out.append(" and ");
                out.append(new.as_str());
                out
            },
            Error::StorePath { path } => {
                let mut out = String::from_str("The store path ");
                out.append(path.as_str());
                out.append(
                    " is a file and can't be merged into an environment using pkgs.buildEnv!",
                );
                out
            },
            Error::NotADirectory { path } => {
                let mut out = String::from_str("not a directory: `");
                out.append(path.as_str());
                out.append("''");
                out
            },
            Error::MissingPackages => String::from_str(
                "No packages specified: neither 'pkgs' nor 'pkgsPath' environment variable is set",
            ),
        }
    }
}

/// Something worth telling that does not end the run.
#[derive(Debug)]
pub enum Warning {
    /// A package in the store is a plain file and was left out.
    SingleFileOutput { path: String },
    /// The link at `link` will point to `target`, a symbolic link to `points_to`, which
    /// resolves to nothing.
    DanglingSymlink { link: String, target: String, points_to: String },
    /// Two contributors claim one path; the earlier one was kept. Both are quoted.
    Collision { new: String, old: String },
    /// Two contributors claim one path and differ in their permission bits.
    DifferentPermissions { first: String, second: String, first_mode: u32, second_mode: u32 },
}

/// The mathematical content of a [`Warning`].
pub enum Notice {
    SingleFileOutput { path: Seq<char> },
    DanglingSymlink { link: Seq<char>, target: Seq<char>, points_to: Seq<char> },
    Collision { new: Seq<char>, old: Seq<char> },
    DifferentPermissions { first: Seq<char>, second: Seq<char>, first_mode: u32, second_mode: u32 },
}

impl View for Warning {
    type V = Notice;

    open spec fn view(&self) -> Notice {
        match *self {
            Warning::SingleFileOutput { path } => Notice::SingleFileOutput { path: path@ },
            Warning::DanglingSymlink { link, target, points_to } => Notice::DanglingSymlink {
                link: link@,
                target: target@,
                points_to: points_to@,
            },
            Warning::Collision { new, old } => Notice::Collision { new: new@, old: old@ },
            Warning::DifferentPermissions { first, second, first_mode, second_mode } =>
                Notice::DifferentPermissions {
                    first: first@,
                    second: second@,
                    first_mode,
                    second_mode,
                },
        }
    }
}

/// The octal digit for a number below eight.
pub open spec fn octal_digit(d: u32) -> Seq<char> {
    if d == 0 {
        "0"@
    } else if d == 1 {
        "1"@
    } else if d == 2 {
        "2"@
    } else if d == 3 {
        "3"@
    } else if d == 4 {
        "4"@
    } else if d == 5 {
        "5"@
    } else if d == 6 {
        "6"@
    } else {
        "7"@
    }
}

/// Permission bits as they are written: the low twelve bits as four octal digits.
pub open spec fn mode_text(mode: u32) -> Seq<char> {
    octal_digit((mode / 512u32) % 8u32) + octal_digit((mode / 64u32) % 8u32) + octal_digit(
        (mode / 8u32) % 8u32,
    ) + octal_digit(mode % 8u32)
}

impl Notice {
    /// The message that tells a person of the warning.
    pub open spec fn message(self) -> Seq<char> {
        match self {
            Notice::SingleFileOutput { path } => "warning: The store path "@ + path
                + " is a file and can't be merged into an environment using pkgs.buildEnv"@,
            Notice::DanglingSymlink { link, target, points_to } =>
                "warning: creating dangling symlink `"@ + link + "' -> `"@ + target + "' -> `"@
                    + points_to + "'"@,
            Notice::Collision { new, old } => "warning: collision between "@ + new + " and "@
                + old,
            Notice::DifferentPermissions { first, second, first_mode, second_mode } =>
                "warning: different permissions in `"@ + first + "' and `"@ + second + "': "@
                    + mode_text(first_mode) + " <-> "@ + mode_text(second_mode),
        }
    }
}

fn push_octal_digit(out: &mut String, d: u32)
    requires
        d < 8,
    ensures
        final(out)@ == old(out)@ + octal_digit(d),
{
    let digit = if d == 0 {
        "0"
    } else if d == 1 {
        "1"
    } else if d == 2 {
        "2"
    } else if d == 3 {
        "3"
    } else if d == 4 {
        "4"
    } else if d == 5 {
        "5"
    } else if d == 6 {
        "6"
    } else {
        "7"
    };
    out.append(digit);
}

fn push_mode(out: &mut String, mode: u32)
    ensures
        final(out)@ == old(out)@ + mode_text(mode),
{
    push_octal_digit(out, (mode / 512) % 8);
    push_octal_digit(out, (mode / 64) % 8);
    push_octal_digit(out, (mode / 8) % 8);
    push_octal_digit(out, mode % 8);
    assert(out@ =~= old(out)@ + mode_text(mode));
}

impl Warning {
    /// The message that tells a person of the warning.
    pub fn message(&self) -> (r: String)
        ensures
            r@ == self@.message(),
    {
        match self {
            Warning::SingleFileOutput { path } => {
                let mut out = String::from_str("warning: The store path ");
                out.append(path.as_str());
                out.append(
                    " is a file and can't be merged into an environment using pkgs.buildEnv",
                );
                out
            },
            Warning::DanglingSymlink { link, target, points_to } => {
                let mut out = String::from_str("warning: creating dangling symlink `");
                out.append(link.as_str());
                out.append("' -> `");
                out.append(target.as_str());
                out.append("' -> `");
                out.append(points_to.as_str());
                out.append("'");
                out
            },
            Warning::Collision { new, old } => {
                let mut out = String::from_str("warning: collision between ");
                out.append(new.as_str());
                out.append(" and ");
                out.append(old.as_str());
                out
            },
            Warning::DifferentPermissions { first, second, first_mode, second_mode } => {
                let mut out = String::from_str("warning: different permissions in `");
                out.append(first.as_str());
                out.append("' and `");
                out.append(second.as_str());
                out.append("': ");
                push_mode(&mut out, *first_mode);
                out.append(" <-> ");
                push_mode(&mut out, *second_mode);
                out
            },
        }
    }
}

/// The views of a sequence of warnings, in order.
pub open spec fn notices(w: Seq<Warning>) -> Seq<Notice> {
    w.map_values(|x: Warning| x@)
}

} // verus!
