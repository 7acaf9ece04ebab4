//! Turns raw remote-control codes into button names, reporting a code only
//! once it was received twice in a row.

use vstd::prelude::*;

verus! {

pub const UNDEFINED_BUTTON: &'static str = "undefined button";

/// The name of the button that sends `value`.
pub open spec fn button_name(value: u32) -> &'static str {
    if value == 0x017E9E90u32 {
        "button 1"
    } else if value == 0x017E9E88u32 {
        "button 2"
    } else if value == 0x017E9E98u32 {
        "button 3"
    } else if value == 0x017E9E84u32 {
        "button 4"
    } else if value == 0x017E9E94u32 {
        "button 5"
    } else if value == 0x017E9E8Cu32 {
        "button 6"
    } else if value == 0x017E9E9Cu32 {
        "button 7"
    } else if value == 0x017E9E82u32 {
        "button 8"
    } else if value == 0x017E9E92u32 {
        "button 9"
    } else if value == 0x017E9E8Au32 {
        "button 10"
    } else {
        UNDEFINED_BUTTON
    }
}

fn name_of(value: u32) -> (r: &'static str)
    ensures
        r == button_name(value),
{
    match value {
        0x017E9E90u32 => "button 1",
        0x017E9E88u32 => "button 2",
        0x017E9E98u32 => "button 3",
        0x017E9E84u32 => "button 4",
        0x017E9E94u32 => "button 5",
        0x017E9E8Cu32 => "button 6",
        0x017E9E9Cu32 => "button 7",
        0x017E9E82u32 => "button 8",
        0x017E9E92u32 => "button 9",
        0x017E9E8Au32 => "button 10",
        _ => UNDEFINED_BUTTON,
    }
}

/// The last code received and how often in a row it came.
pub struct Buttons {
    pub last_value: Option<u32>,
    pub value_cnt: u8,
}

impl Buttons {
    pub fn new() -> (r: Buttons)
        ensures
            r.last_value.is_none(),
            r.value_cnt == 0,
    {
        Buttons { last_value: None, value_cnt: 0 }
    }

    /// Takes one received code. Returns the button's name when the code is
    /// the same as the one before, else nothing. The count of repeats stops
    /// at its maximum.
    pub fn match_button(&mut self, value: u32) -> (r: Option<&'static str>)
        ensures
            final(self).last_value == Some(value),
            final(self).value_cnt == if old(self).last_value == Some(value) {
                if old(self).value_cnt == u8::MAX {
                    u8::MAX
                } else {
                    (old(self).value_cnt + 1) as u8
                }
            } else {
                1u8
            },
            r == if final(self).value_cnt >= 2 {
                Some(button_name(value))
            } else {
                None::<&'static str>
            },
    {
        match self.last_value {
            Some(last) if value == last => {
                self.value_cnt = self.value_cnt.saturating_add(1);
            },
            _ => {
                self.last_value = Some(value);
                self.value_cnt = 1;
            },
        }
        if self.value_cnt >= 2 {
            return Some(name_of(value));
        }
        None
    }
}

/// The debouncer as the remote receiver uses it.
pub struct ButtonParser {
    pub buttons: Buttons,
}

impl ButtonParser {
    pub fn new() -> (r: ButtonParser)
        ensures
            r.buttons.last_value.is_none(),
            r.buttons.value_cnt == 0,
    {
        ButtonParser { buttons: Buttons::new() }
    }

    /// Takes one received code, as `Buttons::match_button` does.
    pub fn run(&mut self, value: u32) -> (r: Option<&'static str>)
        ensures
            final(self).buttons.last_value == Some(value),
            final(self).buttons.value_cnt == if old(self).buttons.last_value == Some(value) {
                if old(self).buttons.value_cnt == u8::MAX {
                    u8::MAX
                } else {
                    (old(self).buttons.value_cnt + 1) as u8
                }
            } else {
                1u8
            },
            r == if final(self).buttons.value_cnt >= 2 {
                Some(button_name(value))
            } else {
                None::<&'static str>
            },
    {
        self.buttons.match_button(value)
    }
}

} // verus!
