use vstd::prelude::*;
use vstd::string::StringExecFns;

verus! {

/// The status of an answer that carries its verdict in its body.
pub const STATUS_OK: u16 = 200;

/// The status of an answer to a request for something that is not there.
pub const STATUS_NOT_FOUND: u16 = 404;

/// An answer, or the status and body of a refusal.
pub type ApiResult<T> = Result<T, (u16, StandardApiJsonBody<()>)>;

/// An answer in the standard body, or the status and body of a refusal.
pub type StandardApiResult<T> = ApiResult<StandardApiJsonBody<T>>;

/// The body of every answer: a code, a message for people, and the data.
#[derive(Clone, Debug)]
pub struct StandardApiJsonBody<T> {
    pub code: String,
    pub message: String,
    pub data: T,
}

/// The body of a refusal with the given code and message. Its status is
/// still OK.
pub fn build_error_response(code: String, message: String) -> (r: (u16, StandardApiJsonBody<()>))
    ensures
        r.0 == STATUS_OK,
        r.1.code == code,
        r.1.message == message,
        r.1.data == (),
{
    let res = StandardApiJsonBody { code, message, data: () };
    (STATUS_OK, res)
}

impl<T> StandardApiJsonBody<T> {
    /// The body of a success that carries `value`.
    pub fn from(value: T) -> (body: Self)
        ensures
            body.code@ == "00000"@,
            body.message@ == "success"@,
            body.data == value,
    {
        StandardApiJsonBody {
            code: String::from_str("00000"),
            message: String::from_str("success"),
            data: value,
        }
    }
}

} // verus!
