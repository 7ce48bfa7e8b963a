# hangman

A hangman game in which the computer never commits to a secret word: it
keeps a list of candidate words of the chosen length. A wrong guess keeps
the words without the letter. A right guess settles on the fewest copies of
the letter that a word holds, groups those words by where the letter stands,
and keeps one of the largest groups, drawn at random when several tie.

- `src/game.rs`: the game state `Hangman`, its model `HangmanView`, and every
  decision of the game (building the word list, splitting it by a guess,
  revealing a letter, judging answers), each with a contract over the model.
- `src/groups.rs`: copies of a letter per word, the histogram of repeats,
  patterns and groups of words that share one.
- `src/words.rs`: byte- and character-level facts (counting a letter,
  patterns, substring search, the shown word).
- `src/removal.rs`: keeping the unflagged elements of a sequence, in order.
- `src/laws.rs`: properties of the game as a whole, proved.
- `src/random.rs`: the one call into `rand`.
- `app/main.rs`: the terminal program: prompts, reading the dictionary file
  `src/dictionary.txt`, and printing.
