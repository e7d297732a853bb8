//! Why a render fails, and how that is told.

use vstd::prelude::*;
use vstd::string::*;

use crate::text::to_decimal;

verus! {

/// Why a render fails.
#[derive(Debug)]
pub enum RenderError {
    /// The name of an upstream file is not UTF-8.
    NameNotUtf8 { path: String },
    /// Two upstream files stand for one provider.
    SeveralFiles { provider: String },
    /// A selected upstream file could not be read.
    ReadUpstream { cause: String },
    /// The base file could not be read.
    ReadBase { path: String, cause: String },
    /// A file uses a token whose variable is not set.
    Unset { path: String, name: String },
    /// A file is not what its format asks for.
    Parse { path: String, cause: String },
    /// The slots of a direct upstream name no header for the key.
    NoAuthHeader { path: String },
    /// A selection names a variant for which there is no file.
    NoSuchVariant { provider: String, variant: String },
    /// A provider ships variant files, and none is selected.
    NotSelected { provider: String },
    /// A route of an upstream is not a mapping.
    RouteNotMapping { provider: String },
    /// A route's list of headers to remove is not a list.
    HeadersNotList { provider: String },
    /// The base file does not hold a marker exactly once.
    MarkerCount { marker: String, found: usize },
    /// The result has no JSON form.
    Serialize { cause: String },
}

/// The model of a [`RenderError`].
pub enum Failure {
    NameNotUtf8 { path: Seq<char> },
    SeveralFiles { provider: Seq<char> },
    ReadUpstream { cause: Seq<char> },
    ReadBase { path: Seq<char>, cause: Seq<char> },
    Unset { path: Seq<char>, name: Seq<char> },
    Parse { path: Seq<char>, cause: Seq<char> },
    NoAuthHeader { path: Seq<char> },
    NoSuchVariant { provider: Seq<char>, variant: Seq<char> },
    NotSelected { provider: Seq<char> },
    RouteNotMapping { provider: Seq<char> },
    HeadersNotList { provider: Seq<char> },
    MarkerCount { marker: Seq<char>, found: nat },
    Serialize { cause: Seq<char> },
}

impl View for RenderError {
    type V = Failure;

    open spec fn view(&self) -> Failure {
        match *self {
            RenderError::NameNotUtf8 { path } => Failure::NameNotUtf8 { path: path@ },
            RenderError::SeveralFiles { provider } => Failure::SeveralFiles { provider: provider@ },
            RenderError::ReadUpstream { cause } => Failure::ReadUpstream { cause: cause@ },
            RenderError::ReadBase { path, cause } => Failure::ReadBase {
                path: path@,
                cause: cause@,
            },
            RenderError::Unset { path, name } => Failure::Unset { path: path@, name: name@ },
            RenderError::Parse { path, cause } => Failure::Parse { path: path@, cause: cause@ },
            RenderError::NoAuthHeader { path } => Failure::NoAuthHeader { path: path@ },
            RenderError::NoSuchVariant { provider, variant } => Failure::NoSuchVariant {
                provider: provider@,
                variant: variant@,
            },
            RenderError::NotSelected { provider } => Failure::NotSelected { provider: provider@ },
            RenderError::RouteNotMapping { provider } => Failure::RouteNotMapping {
                provider: provider@,
            },
            RenderError::HeadersNotList { provider } => Failure::HeadersNotList {
                provider: provider@,
            },
            RenderError::MarkerCount { marker, found } => Failure::MarkerCount {
                marker: marker@,
                found: found as nat,
            },
            RenderError::Serialize { cause } => Failure::Serialize { cause: cause@ },
        }
    }
}

impl Failure {
    /// What went wrong, in one sentence.
    pub open spec fn message(self) -> Seq<char> {
        match self {
            Failure::NameNotUtf8 { path } => "non-UTF-8 upstream file name "@ + path,
            Failure::SeveralFiles { provider } => provider
                + " has more than one upstream file selected"@,
            Failure::ReadUpstream { cause } => cause,
            Failure::ReadBase { path, cause } => "read "@ + path,
            Failure::Unset { path, name } => path + " uses __"@ + name + "__ but "@ + name
                + " is not set"@,
            Failure::Parse { path, cause } => "parse "@ + path,
            Failure::NoAuthHeader { path } => path
                + ": a direct upstream's slots need an auth_header"@,
            Failure::NoSuchVariant { provider, variant } => "no upstream file "@ + provider + "."@
                + variant + ".yaml for --select "@ + provider + "="@ + variant,
            Failure::NotSelected { provider } => provider
                + " ships variant files; pass --select "@ + provider + "=<variant>"@,
            Failure::RouteNotMapping { provider } => "a route in upstreams/"@ + provider
                + "*.yaml is not a mapping"@,
            Failure::HeadersNotList { provider } => provider
                + ": request_headers_to_remove must be a list"@,
            Failure::MarkerCount { marker, found } => "base.yaml must contain `- "@ + marker
                + "` exactly once (found "@ + crate::text::decimal(found) + ")"@,
            Failure::Serialize { cause } => "serialize rendered Envoy config"@,
        }
    }

    /// What lies behind the failure, where the message does not hold it.
    pub open spec fn cause(self) -> Option<Seq<char>> {
        match self {
            Failure::ReadBase { path, cause } => Some(cause),
            Failure::Parse { path, cause } => Some(cause),
            Failure::Serialize { cause } => Some(cause),
            _ => None,
        }
    }
}

impl RenderError {
    /// What went wrong, in one sentence.
    pub fn message(&self) -> (r: String)
        ensures
            r@ == self@.message(),
    {
        let mut out = String::new();
        match self {
            RenderError::NameNotUtf8 { path } => {
                out.append("non-UTF-8 upstream file name ");
                out.append(path);
            },
            RenderError::SeveralFiles { provider } => {
                out.append(provider);
                out.append(" has more than one upstream file selected");
            },
            RenderError::ReadUpstream { cause } => {
                out.append(cause);
            },
            RenderError::ReadBase { path, cause: _ } => {
                out.append("read ");
                out.append(path);
            },
            RenderError::Unset { path, name } => {
                out.append(path);
                out.append(" uses __");
                out.append(name);
                out.append("__ but ");
                out.append(name);
                out.append(" is not set");
            },
            RenderError::Parse { path, cause: _ } => {
                out.append("parse ");
                out.append(path);
            },
            RenderError::NoAuthHeader { path } => {
                out.append(path);
                out.append(": a direct upstream's slots need an auth_header");
            },
            RenderError::NoSuchVariant { provider, variant } => {
                out.append("no upstream file ");
                out.append(provider);
                out.append(".");
                out.append(variant);
                out.append(".yaml for --select ");
                out.append(provider);
                out.append("=");
                out.append(variant);
            },
            RenderError::NotSelected { provider } => {
                out.append(provider);
                out.append(" ships variant files; pass --select ");
                out.append(provider);
                out.append("=<variant>");
            },
            RenderError::RouteNotMapping { provider } => {
                out.append("a route in upstreams/");
                out.append(provider);
                out.append("*.yaml is not a mapping");
            },
            RenderError::HeadersNotList { provider } => {
                out.append(provider);
                out.append(": request_headers_to_remove must be a list");
            },
            RenderError::MarkerCount { marker, found } => {
                out.append("base.yaml must contain `- ");
                out.append(marker);
                out.append("` exactly once (found ");
                let digits = to_decimal(*found);
                out.append(&digits);
                out.append(")");
            },
            RenderError::Serialize { cause: _ } => {
                out.append("serialize rendered Envoy config");
            },
        }
        assert(out@ =~= self@.message());
        out
    }

    /// What lies behind the failure, where the message does not hold it.
    pub fn cause(&self) -> (r: Option<String>)
        ensures
            crate::text::opt_text(r) == self@.cause(),
    {
        match self {
            RenderError::ReadBase { path: _, cause } => Some(cause.clone()),
            RenderError::Parse { path: _, cause } => Some(cause.clone()),
            RenderError::Serialize { cause } => Some(cause.clone()),
            _ => None,
        }
    }

    /// The message, followed by the cause where there is one.
    pub fn full_message(&self) -> (r: String)
        ensures
            r@ == match self@.cause() {
                Some(cause) => self@.message() + ": "@ + cause,
                None => self@.message(),
            },
    {
        let mut out = self.message();
        if let Some(cause) = self.cause() {
            out.append(": ");
            out.append(&cause);
        }
        out
    }
}

/// A failure is told with what it is about.
pub proof fn failure_is_kept(a: String, b: String, n: usize)
    ensures
        (RenderError::NameNotUtf8 { path: a })@ == (Failure::NameNotUtf8 { path: a@ }),
        (RenderError::SeveralFiles { provider: a })@ == (Failure::SeveralFiles { provider: a@ }),
        (RenderError::ReadUpstream { cause: a })@ == (Failure::ReadUpstream { cause: a@ }),
        (RenderError::ReadBase { path: a, cause: b })@ == (Failure::ReadBase {
            path: a@,
            cause: b@,
        }),
        (RenderError::Unset { path: a, name: b })@ == (Failure::Unset { path: a@, name: b@ }),
        (RenderError::Parse { path: a, cause: b })@ == (Failure::Parse { path: a@, cause: b@ }),
        (RenderError::NoAuthHeader { path: a })@ == (Failure::NoAuthHeader { path: a@ }),
        (RenderError::NoSuchVariant { provider: a, variant: b })@ == (Failure::NoSuchVariant {
            provider: a@,
            variant: b@,
        }),
        (RenderError::NotSelected { provider: a })@ == (Failure::NotSelected { provider: a@ }),
        (RenderError::RouteNotMapping { provider: a })@ == (Failure::RouteNotMapping {
            provider: a@,
        }),
        (RenderError::HeadersNotList { provider: a })@ == (Failure::HeadersNotList {
            provider: a@,
        }),
        (RenderError::MarkerCount { marker: a, found: n })@ == (Failure::MarkerCount {
            marker: a@,
            found: n as nat,
        }),
        (RenderError::Serialize { cause: a })@ == (Failure::Serialize { cause: a@ }),
{
}

/// The sentence for each failure.
pub proof fn failure_messages(a: Seq<char>, b: Seq<char>, n: nat)
    ensures
        (Failure::NameNotUtf8 { path: a }).message() == "non-UTF-8 upstream file name "@ + a,
        (Failure::SeveralFiles { provider: a }).message() == a
            + " has more than one upstream file selected"@,
        (Failure::ReadUpstream { cause: a }).message() == a,
        (Failure::ReadBase { path: a, cause: b }).message() == "read "@ + a,
        (Failure::Unset { path: a, name: b }).message() == a + " uses __"@ + b + "__ but "@ + b
            + " is not set"@,
        (Failure::Parse { path: a, cause: b }).message() == "parse "@ + a,
        (Failure::NoAuthHeader { path: a }).message() == a
            + ": a direct upstream's slots need an auth_header"@,
        (Failure::NoSuchVariant { provider: a, variant: b }).message() == "no upstream file "@ + a
            + "."@ + b + ".yaml for --select "@ + a + "="@ + b,
        (Failure::NotSelected { provider: a }).message() == a
            + " ships variant files; pass --select "@ + a + "=<variant>"@,
        (Failure::RouteNotMapping { provider: a }).message() == "a route in upstreams/"@ + a
            + "*.yaml is not a mapping"@,
        (Failure::HeadersNotList { provider: a }).message() == a
            + ": request_headers_to_remove must be a list"@,
        (Failure::MarkerCount { marker: a, found: n }).message() == "base.yaml must contain `- "@
            + a + "` exactly once (found "@ + crate::text::decimal(n) + ")"@,
        (Failure::Serialize { cause: a }).message() == "serialize rendered Envoy config"@,
{
}

/// What lies behind a failure is told for a base that could not be read, a text that
/// was refused and a result without JSON form, and for no other.
pub proof fn failure_causes(failure: Failure, a: Seq<char>, b: Seq<char>)
    ensures
        (Failure::ReadBase { path: a, cause: b }).cause() == Some(b),
        (Failure::Parse { path: a, cause: b }).cause() == Some(b),
        (Failure::Serialize { cause: b }).cause() == Some(b),
        !(failure is ReadBase) && !(failure is Parse) && !(failure is Serialize)
            ==> failure.cause() is None,
{
}

} // verus!
