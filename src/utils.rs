//! Request validation helpers and the error responses of the image service.

use vstd::prelude::*;
use vstd::string::StringExecFns;

verus! {

/// Opening of the page sent with a 404 response; the reason follows it.
pub const NOT_FOUND_HEAD: &'static str = "<!DOCTYPE html><html lang='en' style='height: 100%;'><head><meta charset='utf-8'><title>Resource Not Found</title></head><body style='height: 100%;margin: 0;'><div style='display: -webkit-box;display: -ms-flexbox;display: flex;-webkit-box-orient: vertical;-webkit-box-direction: normal;-ms-flex-direction: column;flex-direction: column;-webkit-box-pack: center;-ms-flex-pack: center;justify-content: center;height: 100%;'><h1 style='text-align:center;font-size:100px;margin:0;'>404 Not Found</h1><h1 style='text-align:center;'>";

/// Close of the page sent with a 404 response.
pub const NOT_FOUND_TAIL: &'static str = "</h1></body></div></html>";

/// Why a request for an image was refused.
pub enum InvalidRequest {
    /// 404: the HTML page to send.
    NotFnd(String),
    /// 400: the reason, sent as plain text.
    BadReq(String),
}

/// The resize ratios, in percent, that the service produces.
pub open spec fn is_standard_ratio(r: u8) -> bool {
    r == 0 || r == 20 || r == 35 || r == 50 || r == 75 || r == 90
}

/// Determines whether a ratio is not one of the standardized ones:
/// 0, 20, 35, 50, 75, 90.
pub fn non_standardized(r: u8) -> (res: bool)
    ensures
        res == !is_standard_ratio(r),
{
    match r {
        0 => false,
        20 => false,
        35 => false,
        50 => false,
        75 => false,
        90 => false,
        _ => true,
    }
}

/// Reusable 400 response.
pub fn send_400_response(reason: String) -> (r: InvalidRequest)
    ensures
        r == InvalidRequest::BadReq(reason),
{
    InvalidRequest::BadReq(reason)
}

/// Reusable 404 response: an HTML page that shows `reason`.
pub fn send_404_response(reason: String) -> (r: InvalidRequest)
    ensures
        r matches InvalidRequest::NotFnd(page) && page@ == NOT_FOUND_HEAD@ + reason@
            + NOT_FOUND_TAIL@,
{
    let mut page = String::from_str(NOT_FOUND_HEAD);
    page.append(reason.as_str());
    page.append(NOT_FOUND_TAIL);
    InvalidRequest::NotFnd(page)
}

} // verus!
