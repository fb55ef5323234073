//! Reminders for a chat bot: a parser for human time expressions, a time-ordered queue of
//! reminders with its binary file format, and the decisions of the bot's commands.
pub mod calendar;
pub mod text;
pub mod time_parse;
pub mod reminders;
pub mod codec;
pub mod commands;
