//! The broker: sessions, subscriptions, queues, retained messages and wills within bounds.
pub mod answers;
pub mod attach;
pub mod carry;
pub mod deliver;
pub mod ease;
pub mod exchange;
pub mod filing;
pub mod flow;
pub mod handover;
pub mod history;
pub mod inbound;
pub mod law;
pub mod maintain;
pub mod model;
pub mod outbound;
pub mod reach;
pub mod replay;
pub mod restart;
pub mod restore;
pub mod revive;
pub mod retain;
pub mod route;
pub mod safekeeping;
pub mod service;
pub mod slots;
pub mod state;
pub mod stay;
pub mod subscribe;
pub mod tenure;
pub mod tidy;
pub mod totals;
pub mod turnover;
pub mod undo;
pub mod unsubscribe;
pub mod weight;
pub mod wills;
