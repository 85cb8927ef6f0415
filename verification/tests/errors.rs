use knock_knock::errors::{JokeBaseErr, JokeBaseError};

#[test]
fn response_packages_status_and_error() {
    let r = JokeBaseError::response(404, JokeBaseErr::NoJoke);
    assert_eq!(r.status, 404);
    assert_eq!(r.error, JokeBaseErr::NoJoke);
}

#[test]
fn response_keeps_error_payload() {
    let r = JokeBaseError::response(400, JokeBaseErr::JokeExists("knock".to_owned()));
    assert_eq!(r.status, 400);
    assert_eq!(r.error, JokeBaseErr::JokeExists("knock".to_owned()));
}
