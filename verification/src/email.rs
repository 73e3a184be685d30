//! The support-email template. Sending mail is outside the data layer; this
//! module only serves the template that the sender fills in.

use vstd::prelude::*;

verus! {

/// Returns the support-email body template. The placeholders in double
/// braces are replaced by the sender with the request's fields.
pub fn load_email_template() -> (r: Result<String, String>)
    ensures
        r matches Ok(t) && t@
            == "<html><body><h2>Support request</h2><p><b>From:</b> {{SENDER_NAME}} ({{SENDER_EMAIL}})</p><p><b>Subject:</b> {{SUBJECT}}</p><hr/><p>{{MESSAGE}}</p></body></html>"@,
{
    Ok(
        "<html><body><h2>Support request</h2><p><b>From:</b> {{SENDER_NAME}} ({{SENDER_EMAIL}})</p><p><b>Subject:</b> {{SUBJECT}}</p><hr/><p>{{MESSAGE}}</p></body></html>".to_owned(),
    )
}

} // verus!
