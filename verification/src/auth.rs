use vstd::prelude::*;
use vstd::string::StringExecFns;

verus! {

/// Where the identity of a user comes from.
#[derive(Clone, Copy, Debug, PartialEq, Eq, Structural)]
pub enum AuthSource {
    Test,
    Github,
    Gitlab,
}

/// Why an authentication request was not accepted.
#[derive(Debug, PartialEq, Eq)]
pub enum AuthError {
    /// No source of identities has that name.
    NoSuchAuthSource(String),
}

impl DeepView for AuthError {
    type V = Seq<char>;

    open spec fn deep_view(&self) -> Seq<char> {
        match self {
            AuthError::NoSuchAuthSource(name) => name@,
        }
    }
}

/// The source that a name denotes.
pub open spec fn auth_source_of(name: Seq<char>) -> Option<AuthSource> {
    if name == "test"@ {
        Some(AuthSource::Test)
    } else if name == "github"@ {
        Some(AuthSource::Github)
    } else if name == "gitlab"@ {
        Some(AuthSource::Gitlab)
    } else {
        None
    }
}

/// The name of a source.
pub open spec fn auth_source_name(source: AuthSource) -> Seq<char> {
    match source {
        AuthSource::Test => "test"@,
        AuthSource::Github => "github"@,
        AuthSource::Gitlab => "gitlab"@,
    }
}

impl AuthSource {
    /// The source of the given name: `test`, `github` or `gitlab`; any other
    /// name is an error that carries the name.
    pub fn from_str(name: &str) -> (r: Result<AuthSource, AuthError>)
        ensures
            match auth_source_of(name@) {
                Some(source) => r == Ok::<AuthSource, AuthError>(source),
                None => r is Err && r.unwrap_err().deep_view() == name@,
            },
    {
        let given = String::from_str(name);
        if given == String::from_str("test") {
            Ok(AuthSource::Test)
        } else if given == String::from_str("github") {
            Ok(AuthSource::Github)
        } else if given == String::from_str("gitlab") {
            Ok(AuthSource::Gitlab)
        } else {
            Err(AuthError::NoSuchAuthSource(given))
        }
    }

    /// The name of the source.
    pub fn to_string(&self) -> (s: String)
        ensures
            s@ == auth_source_name(*self),
    {
        match self {
            AuthSource::Test => String::from_str("test"),
            AuthSource::Github => String::from_str("github"),
            AuthSource::Gitlab => String::from_str("gitlab"),
        }
    }
}

/// Reading the name of a source gives the source back.
pub proof fn lemma_auth_source_round_trip(source: AuthSource)
    ensures
        auth_source_of(auth_source_name(source)) == Some(source),
{
    reveal_strlit("test");
    reveal_strlit("github");
    reveal_strlit("gitlab");
    assert("github"@.len() != "test"@.len());
    assert("gitlab"@[3] != "github"@[3]);
    assert("gitlab"@.len() != "test"@.len());
}

} // verus!
