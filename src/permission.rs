//! Permission prompts raised by a running script, and their resolutions.

use vstd::prelude::*;

verus! {

/// The answer to a permission prompt.
#[derive(Debug, Clone, Copy, PartialEq, Eq, Structural)]
pub enum PermissionsResponse {
    /// Grant this one request.
    Allow,
    /// Refuse the request; also the fail-safe answer when no decision comes.
    Deny,
    /// Grant this request and every later one of the same kind.
    AllowAll,
}

/// The textual name of each response.
pub open spec fn response_name(r: PermissionsResponse) -> Seq<char> {
    match r {
        PermissionsResponse::Allow => "Allow"@,
        PermissionsResponse::Deny => "Deny"@,
        PermissionsResponse::AllowAll => "AllowAll"@,
    }
}

/// The response whose name is `s`, if any.
pub open spec fn response_named(s: Seq<char>) -> Option<PermissionsResponse> {
    if s == "Allow"@ {
        Some(PermissionsResponse::Allow)
    } else if s == "Deny"@ {
        Some(PermissionsResponse::Deny)
    } else if s == "AllowAll"@ {
        Some(PermissionsResponse::AllowAll)
    } else {
        None
    }
}

impl PermissionsResponse {
    pub fn as_str(&self) -> (r: &'static str)
        ensures
            r@ == response_name(*self),
    {
        match self {
            PermissionsResponse::Allow => "Allow",
            PermissionsResponse::Deny => "Deny",
            PermissionsResponse::AllowAll => "AllowAll",
        }
    }

    /// Reads a response from its name; `None` for any other text.
    pub fn parse(s: &str) -> (r: Option<PermissionsResponse>)
        ensures
            r == response_named(s@),
    {
        let text = s.to_owned();
        if text == "Allow".to_owned() {
            Some(PermissionsResponse::Allow)
        } else if text == "Deny".to_owned() {
            Some(PermissionsResponse::Deny)
        } else if text == "AllowAll".to_owned() {
            Some(PermissionsResponse::AllowAll)
        } else {
            None
        }
    }

    /// Reads a response from its name, which must be one of the three.
    pub fn from_str(s: &str) -> (r: PermissionsResponse)
        requires
            response_named(s@) is Some,
        ensures
            response_named(s@) == Some(r),
    {
        match PermissionsResponse::parse(s) {
            Some(r) => r,
            None => PermissionsResponse::Deny,
        }
    }
}

/// Reading back the name of a response gives that response.
pub proof fn lemma_response_name_round_trip(r: PermissionsResponse)
    ensures
        response_named(response_name(r)) == Some(r),
{
    reveal_strlit("Allow");
    reveal_strlit("Deny");
    reveal_strlit("AllowAll");
    assert("Allow"@.len() != "Deny"@.len());
    assert("Allow"@.len() != "AllowAll"@.len());
    assert("Deny"@.len() != "AllowAll"@.len());
}

/// What a prompt holds, as plain values.
pub struct PromptView {
    pub message: Seq<char>,
    pub name: Seq<char>,
    pub api_name: Option<Seq<char>>,
    pub is_unary: bool,
    pub response: Option<PermissionsResponse>,
}

/// The view of an optional string.
pub open spec fn opt_view(s: Option<String>) -> Option<Seq<char>> {
    match s {
        Some(t) => Some(t@),
        None => None,
    }
}

/// One request from a running script for a capability grant.
#[derive(Debug)]
pub struct PermissionPrompt {
    message: String,
    name: String,
    api_name: Option<String>,
    is_unary: bool,
    response: Option<PermissionsResponse>,
}

impl View for PermissionPrompt {
    type V = PromptView;

    closed spec fn view(&self) -> PromptView {
        PromptView {
            message: self.message@,
            name: self.name@,
            api_name: opt_view(self.api_name),
            is_unary: self.is_unary,
            response: self.response,
        }
    }
}

fn copy_opt_string(s: &Option<String>) -> (r: Option<String>)
    ensures
        opt_view(r) == opt_view(*s),
{
    match s {
        Some(t) => Some(t.clone()),
        None => None,
    }
}

impl PermissionPrompt {
    /// A new prompt, not yet answered.
    pub fn new(message: String, name: String, api_name: Option<String>, is_unary: bool) -> (r:
        PermissionPrompt)
        ensures
            r@ == (PromptView {
                message: message@,
                name: name@,
                api_name: opt_view(api_name),
                is_unary,
                response: None,
            }),
    {
        PermissionPrompt { message, name, api_name, is_unary, response: None }
    }

    /// A copy with the same view.
    pub fn duplicate(&self) -> (r: PermissionPrompt)
        ensures
            r@ == self@,
    {
        PermissionPrompt {
            message: self.message.clone(),
            name: self.name.clone(),
            api_name: copy_opt_string(&self.api_name),
            is_unary: self.is_unary,
            response: self.response,
        }
    }

    /// This prompt with `response` recorded as its resolution.
    pub fn resolved(self, response: PermissionsResponse) -> (r: PermissionPrompt)
        ensures
            r@ == (PromptView { response: Some(response), ..self@ }),
    {
        PermissionPrompt { response: Some(response), ..self }
    }

    /// The human-readable description of the request.
    pub fn message(&self) -> (r: &String)
        ensures
            r@ == self@.message,
    {
        &self.message
    }

    /// The name of the capability asked for.
    pub fn name(&self) -> (r: &String)
        ensures
            r@ == self@.name,
    {
        &self.name
    }

    /// The API that raised the request, if known.
    pub fn api_name(&self) -> (r: &Option<String>)
        ensures
            opt_view(*r) == self@.api_name,
    {
        &self.api_name
    }

    /// Whether a grant covers this one request only.
    pub fn is_unary(&self) -> (r: bool)
        ensures
            r == self@.is_unary,
    {
        self.is_unary
    }

    /// The resolution, once the prompt has been answered.
    pub fn response(&self) -> (r: Option<PermissionsResponse>)
        ensures
            r == self@.response,
    {
        self.response
    }
}

} // verus!
