use image_cache::utils::{
    non_standardized, send_400_response, send_404_response, InvalidRequest, NOT_FOUND_HEAD,
    NOT_FOUND_TAIL,
};

#[test]
fn standard_ratios_are_recognised() {
    for r in [0u8, 20, 35, 50, 75, 90] {
        assert!(!non_standardized(r));
    }
    for r in [1u8, 19, 21, 36, 100, 255] {
        assert!(non_standardized(r));
    }
}

#[test]
fn bad_request_carries_reason() {
    match send_400_response("The image content type is invalid.".to_string()) {
        InvalidRequest::BadReq(reason) => {
            assert_eq!(reason, "The image content type is invalid.")
        }
        InvalidRequest::NotFnd(_) => panic!("expected a 400 response"),
    }
}

#[test]
fn not_found_wraps_reason_in_page() {
    match send_404_response("Resource was not found.".to_string()) {
        InvalidRequest::NotFnd(page) => {
            assert!(page.starts_with("<!DOCTYPE html>"));
            assert!(page.ends_with("<h1 style='text-align:center;'>Resource was not found.</h1></body></div></html>"));
            assert_eq!(
                page,
                format!("{}{}{}", NOT_FOUND_HEAD, "Resource was not found.", NOT_FOUND_TAIL)
            );
        }
        InvalidRequest::BadReq(_) => panic!("expected a 404 response"),
    }
}
