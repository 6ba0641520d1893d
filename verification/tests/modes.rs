use nango_qa::ExecMode;

#[test]
fn init_pkey_test1() {
    // no pkey at all
    let res = ExecMode::new("l", "", "");
    match res {
        Err(error) => {
            assert_eq!(error, "Not executable".to_string());
        },
        Ok(_) => {
            assert!(false);
        },
    }
}

#[test]
fn init_pkey_test2() {
    // empty pkey
    let res = ExecMode::new("l", "", "");
    match res {
        Err(error) => {
            assert_eq!(error, "Not executable".to_string());
        },
        Ok(_) => {
            assert!(false);
        },
    }
}

#[test]
fn init_pkey_test3() {
    // wrong pkey
    let res = ExecMode::new("l", "", "abc");
    match res {
        Err(error) => {
            assert_eq!(error, "Not executable".to_string());
        },
        Ok(_) => {
            assert!(false);
        },
    }
}

#[test]
fn init_test1() {
    // unknown mode
    let res = ExecMode::new("x", "", "nango7_ai_nango_kun");
    match res {
        Err(error) => {
            assert_eq!(error, "学習: l、予測: p を指定してください。".to_string());
        },
        Ok(_) => {
            assert!(false);
        },
    }
}

#[test]
fn init_test2() {
    // training mode is accepted
    let res = ExecMode::new("l", "", "nango7_ai_nango_kun");
    match res {
        Err(_) => {
            assert!(false);
        },
        Ok(_) => {
            assert!(true);
        },
    }
}

#[test]
fn init_test3() {
    // prediction mode with a query sentence is accepted
    let res = ExecMode::new("p", "お店で楽器は演奏できますか？", "nango7_ai_nango_kun");
    match res {
        Err(_) => {
            assert!(false);
        },
        Ok(_) => {
            assert!(true);
        },
    }
}

#[test]
fn init_test4() {
    // prediction mode without a query sentence is rejected
    let res = ExecMode::new("p", "", "nango7_ai_nango_kun");
    match res {
        Err(error) => {
            assert_eq!(error, "予測時は、質問文を入力してください。".to_string());
        },
        Ok(_) => {
            assert!(false);
        },
    }
}

#[test]
fn predict_mode_carries_sentence() {
    let res = ExecMode::new("p", "store hours", "nango7_ai_nango_kun");
    match res {
        Ok(ExecMode::Predict { que_sentence }) => {
            assert_eq!(que_sentence, "store hours".to_string());
        },
        _ => {
            assert!(false);
        },
    }
}
