# player

Verified core of a light player for a string instrument: every key has an
LED, a song sheet received over Bluetooth says which key lights on which
eighth of a beat, and the player decides, one eighth beat at a time, which
LEDs to switch and how long to wait.

- `src/text.rs`: splitting on a separator and reading `u8` numbers, against
  spec functions that state what `str::split` and `u8::from_str` give.
- `src/player.rs`: the sheet format (`beats,tempo_theme_accompaniment_...`,
  bars split by `|`, notes by `,`, a note being a key symbol and an optional
  length digit), the songs and the player. The player does no I/O: `play`,
  `reset` and `new` append `Command`s (light a key, put it out, wait) that
  the caller carries out.
- `src/laws.rs`: what holds of every sheet and every run: notes lie end to
  end from beat 0, each note lights on its start beat and no other, LEDs
  switch only where notes meet, the player follows its theme and ends after
  its last beat, reset restarts it.
- `app/main.rs`: the STM32F103 firmware (GPIO pins, SysTick delay, USART3,
  and the tempo, which is read with floating point).
