use graphshell::app_admission::AppId;
use graphshell::app_broker::APP_CONNECT_SCHEMA;
use graphshell::app_client::{
    connect_answer, expect_challenge, expect_connected, expect_notice, expect_response,
    AppBrokerClient, AppClientError, HostMessageKind,
};

#[test]
fn the_first_answer_must_be_a_challenge() {
    assert_eq!(
        expect_challenge(HostMessageKind::Challenge { host_nonce: "n1".to_string() }),
        Ok("n1".to_string())
    );
    assert_eq!(
        expect_challenge(HostMessageKind::Notice { present: false }),
        Err(AppClientError::UnexpectedAnswer {
            expected: "a challenge",
            got: "a carrier notice"
        })
    );
}

#[test]
fn connected_must_name_this_application() {
    let app = AppId::new("turnstone");
    assert_eq!(
        expect_connected(
            HostMessageKind::Connected { app: AppId::new("turnstone"), session: "s9".to_string() },
            &app
        ),
        Ok("s9".to_string())
    );
    assert_eq!(
        expect_connected(
            HostMessageKind::Connected { app: AppId::new("knot"), session: "s9".to_string() },
            &app
        ),
        Err(AppClientError::Refused(
            "resident host connected knot, expected turnstone".to_string()
        ))
    );
    assert_eq!(
        expect_connected(HostMessageKind::Failure { message: "no".to_string() }, &app),
        Err(AppClientError::UnexpectedAnswer { expected: "connected", got: "a failure" })
    );
}

#[test]
fn requests_are_numbered_from_one() {
    let mut client = AppBrokerClient::connected("s1".to_string());
    assert_eq!(client.session(), "s1");
    assert_eq!(client.next_request_id(), 1);
    assert_eq!(client.next_request_id(), 2);
    assert_eq!(client.next_request_id(), 3);
    assert_eq!(client.session(), "s1");
}

#[test]
fn a_response_must_answer_the_request_it_follows() {
    assert_eq!(expect_response(4, HostMessageKind::Response { id: 4, refusal: None }), Ok(()));
    assert_eq!(
        expect_response(4, HostMessageKind::Response { id: 4, refusal: Some("denied".to_string()) }),
        Err(AppClientError::Refused("denied".to_string()))
    );
    assert_eq!(
        expect_response(4, HostMessageKind::Response { id: 3, refusal: None }),
        Err(AppClientError::MismatchedResponse { expected: 4, got: 3 })
    );
    assert_eq!(
        expect_response(4, HostMessageKind::Challenge { host_nonce: String::new() }),
        Err(AppClientError::UnexpectedAnswer { expected: "a carrier response", got: "a challenge" })
    );
}

#[test]
fn waiting_for_a_notice_yields_a_notice_or_an_error() {
    assert_eq!(expect_notice(HostMessageKind::Notice { present: true }), Ok(true));
    assert_eq!(expect_notice(HostMessageKind::Notice { present: false }), Ok(false));
    assert_eq!(
        expect_notice(HostMessageKind::Response { id: 1, refusal: None }),
        Err(AppClientError::UnexpectedAnswer { expected: "a carrier notice", got: "a carrier response" })
    );
}

#[test]
fn the_connect_answer_echoes_the_host_nonce_and_encodes_the_client_nonce() {
    let mut nonce = [0u8; 32];
    for (i, b) in nonce.iter_mut().enumerate() {
        *b = i as u8;
    }
    let answer = connect_answer("host-nonce".to_string(), &nonce);
    assert_eq!(answer.schema, APP_CONNECT_SCHEMA);
    assert_eq!(answer.host_nonce, "host-nonce");
    assert_eq!(answer.client_nonce, "AAECAwQFBgcICQoLDA0ODxAREhMUFRYXGBkaGxwdHh8");
    let high = connect_answer(String::new(), &[0xFF; 32]);
    assert_eq!(high.client_nonce, "__________________________________________8");
}
