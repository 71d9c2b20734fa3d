# ion_mail

A command-line mail client (IMAP, SMTP, OAuth2 device login) whose core is
verified with Verus.

- `src/` is the verified library: the account registry (adding, switching,
  editing, logging out, the keyring entries an account owns), folder
  bookkeeping (listings, parent chains, recursive deletion order, unique-id
  sets), message numbers and their translation to server sequence numbers
  and unique ids, the reading of messages (MIME part tree, header fields,
  attachments, download plans, search matching) and the texts the client
  prints. Calls into outside crates (mailparse, chrono, email_address,
  lettre, html2md, markdown, strip_markdown, mime_guess) stand behind small
  trusted wrappers whose contracts are documented where they are declared.
- `app/` is the program around it: argument parsing, the configuration file,
  the keyring, network sessions, prompts and the pager.
- `tests/` runs the library on concrete values.
