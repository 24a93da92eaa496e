pub mod mdict;
pub mod web;

use vstd::prelude::*;

use crate::backends::mdict::MDictBackend;
use crate::backends::web::google_translate::GTrans;
use crate::backends::web::youdao::Youdao;

verus! {

/// A backend for looking words up: an online service or a local dictionary.
pub enum Backend {
    Youdao(Youdao),
    GTrans(GTrans),
    MDict(MDictBackend),
}

} // verus!
