//! Facts about how a program was built.
use vstd::prelude::*;

verus! {

/// What the build environment said at compile time.
#[derive(Copy, Clone, Debug)]
pub struct BuildEnv {
    /// Set if all facts must be known.
    pub verify_full: Option<&'static str>,
    /// Date of the build.
    pub date: Option<&'static str>,
    /// Commit that was built.
    pub commit: Option<&'static str>,
}

/// Facts about how a program was built.
#[non_exhaustive]
#[derive(Copy, Clone, Debug)]
pub struct BuildInfo {
    pub build_date: Option<&'static str>,
    pub git_revision: Option<&'static str>,
}

impl BuildInfo {
    /// The facts that the environment gives. If it asks for all facts, none may be missing.
    pub fn get(env: BuildEnv) -> (info: Self)
        requires
            env.verify_full is Some ==> env.date is Some && env.commit is Some,
        ensures
            info.build_date == env.date,
            info.git_revision == env.commit,
            env.verify_full is Some ==> info.build_date is Some && info.git_revision is Some,
    {
        BuildInfo::do_get(env)
    }

    /// The facts that the environment gives, be they complete or not.
    pub fn do_get(env: BuildEnv) -> (info: Self)
        ensures
            info.build_date == env.date,
            info.git_revision == env.commit,
    {
        BuildInfo { build_date: env.date, git_revision: env.commit }
    }

    /// Whether all facts are there that the environment asks for.
    pub fn is_acceptable(env: BuildEnv) -> (acceptable: bool)
        ensures
            acceptable == (env.verify_full is Some ==> env.date is Some && env.commit is Some),
    {
        env.verify_full.is_none() || (env.date.is_some() && env.commit.is_some())
    }
}

} // verus!
