//! The request mode decision: which operation a request asks for, checked
//! against the fixed access key. The caller hands in the three request
//! fields as plain strings, each empty when absent.

use vstd::prelude::*;
use crate::strutil::str_eq;

verus! {

broadcast use vstd::string::group_string_axioms;

/// The access key a request must carry to be served.
pub const STR_PKEY: &'static str = "nango7_ai_nango_kun";

/// What a request asks for: training, or prediction for a query sentence.
#[derive(Debug)]
pub enum ExecMode {
    Learn,
    Predict { que_sentence: String },
}

impl ExecMode {
    /// Decides the mode of a request. With a wrong or missing access key
    /// the request is not executable; mode `l` asks for training; mode `p`
    /// asks for prediction and needs a non-empty query sentence; any other
    /// mode is rejected with a usage hint.
    pub fn new(mode: &str, que_sentence: &str, pkey: &str) -> (r: Result<ExecMode, String>)
        ensures
            pkey@ != STR_PKEY@ ==> match r {
                Err(m) => m@ == "Not executable"@,
                Ok(_) => false,
            },
            pkey@ == STR_PKEY@ && mode@ == "l"@ ==> match r {
                Ok(em) => em is Learn,
                Err(_) => false,
            },
            pkey@ == STR_PKEY@ && mode@ == "p"@ && que_sentence@.len() > 0 ==> match r {
                Ok(em) => match em {
                    ExecMode::Predict { que_sentence: q } => q@ == que_sentence@,
                    ExecMode::Learn => false,
                },
                Err(_) => false,
            },
            pkey@ == STR_PKEY@ && mode@ == "p"@ && que_sentence@.len() == 0 ==> match r {
                Err(m) => m@ == "予測時は、質問文を入力してください。"@,
                Ok(_) => false,
            },
            pkey@ == STR_PKEY@ && mode@ != "l"@ && mode@ != "p"@ ==> match r {
                Err(m) => m@ == "学習: l、予測: p を指定してください。"@,
                Ok(_) => false,
            },
    {
        proof {
            reveal_strlit("l");
            reveal_strlit("p");
            assert("l"@[0] == 'l');
            assert("p"@[0] == 'p');
            assert("l"@ != "p"@);
        }
        if !str_eq(pkey, STR_PKEY) {
            return Err("Not executable".to_owned());
        }
        if str_eq(mode, "l") {
            Ok(ExecMode::Learn)
        } else if str_eq(mode, "p") {
            if que_sentence.unicode_len() > 0 {
                Ok(ExecMode::Predict { que_sentence: que_sentence.to_owned() })
            } else {
                Err("予測時は、質問文を入力してください。".to_owned())
            }
        } else {
            Err("学習: l、予測: p を指定してください。".to_owned())
        }
    }
}

} // verus!
